use ray_tracer::scene::{
    get_definitions, mk_f64, mk_transform, mk_usize, parse, parse_text, LightDescription, PatternKind,
    PatternSource, Scalar, SceneDescription, ShapeKind, Transformation, Triple,
};
use ray_tracer::yaml::Yaml;
use yaml_rust::YamlLoader;

fn convert(y: &yaml_rust::Yaml) -> Yaml {
    match y {
        yaml_rust::Yaml::Real(s) => Yaml::Real(s.clone()),
        yaml_rust::Yaml::Integer(i) => Yaml::Integer(*i),
        yaml_rust::Yaml::String(s) => Yaml::String(s.clone()),
        yaml_rust::Yaml::Boolean(b) => Yaml::Boolean(*b),
        yaml_rust::Yaml::Array(items) => Yaml::Array(items.iter().map(convert).collect()),
        yaml_rust::Yaml::Hash(h) => {
            Yaml::Hash(h.iter().map(|(k, v)| (convert(k), convert(v))).collect())
        }
        yaml_rust::Yaml::Alias(a) => Yaml::Alias(*a),
        yaml_rust::Yaml::Null => Yaml::Null,
        yaml_rust::Yaml::BadValue => Yaml::BadValue,
    }
}

fn load(text: &str) -> Yaml {
    let docs = YamlLoader::load_from_str(text).unwrap();
    convert(&docs[0])
}

fn scene(text: &str) -> Option<SceneDescription> {
    parse_text(text)
}

fn num(s: &Scalar) -> f64 {
    match s {
        Scalar::Real(t) => t.parse::<f64>().unwrap(),
        Scalar::Integer(i) => *i as f64,
    }
}

fn triple(t: &Triple) -> (f64, f64, f64) {
    (num(&t.x), num(&t.y), num(&t.z))
}

fn steps(ts: &[Transformation]) -> Vec<(String, Vec<f64>)> {
    ts.iter()
        .map(|t| match t {
            Transformation::RotateX(a) => ("rotate-x".to_string(), vec![num(a)]),
            Transformation::RotateY(a) => ("rotate-y".to_string(), vec![num(a)]),
            Transformation::RotateZ(a) => ("rotate-z".to_string(), vec![num(a)]),
            Transformation::Scale(t) => {
                let (x, y, z) = triple(t);
                ("scale".to_string(), vec![x, y, z])
            }
            Transformation::Translate(t) => {
                let (x, y, z) = triple(t);
                ("translate".to_string(), vec![x, y, z])
            }
            Transformation::Shear(a, b, c, d, e, f) => (
                "shear".to_string(),
                vec![num(a), num(b), num(c), num(d), num(e), num(f)],
            ),
        })
        .collect()
}

fn step(name: &str, args: &[f64]) -> (String, Vec<f64>) {
    (name.to_string(), args.to_vec())
}

const CAMERA: &str = "
- add: camera
  width: 100
  height: 50
  field-of-view: 0.785
  from: [-6, 6, -10]
  to: [6, 0, 6]
  up: [-0.45, 1, 0]
";

const SCENE: &str = "
- add: camera
  width: 100
  height: 50
  field-of-view: 0.785
  from: [-6, 6, -10]
  to: [6, 0, 6]
  up: [-0.45, 1, 0]

- add: light
  at: [50, 100, -50]
  intensity: [1, 1, 1]

- add: light
  corner: [-1, 2, 4]
  uvec: [2, 0, 0]
  vvec: [0, 2, 0]
  usteps: 4
  vsteps: 3
  intensity: [1.5, 1.5, 1.5]

- define: white-material
  value:
    color: [1, 1, 1]
    diffuse: 0.7
    ambient: 0.1
    specular: 0.0
    reflective: 0.1

- define: blue-material
  extend: white-material
  value:
    color: [0.537, 0.831, 0.914]

- define: standard-transform
  value:
    - [translate, 1, -1, 1]
    - [scale, 0.5, 0.5, 0.5]

- define: large-object
  value:
    - standard-transform
    - [scale, 3.5, 3.5, 3.5]

- add: plane
  material:
    color: [1, 1, 1]
    ambient: 1
    diffuse: 0
    specular: 0
  transform:
    - [rotate-x, 1.5]
    - [translate, 0, 0, 500]

- add: sphere
  material: blue-material
  transform:
    - large-object
    - [translate, 8.5, 1.5, -0.5]

- add: cube
  shadow: false
  material:
    pattern:
      type: checkers
      colors:
        - [0.35, 0.35, 0.35]
        - [0.65, 0.65, 0.65]
        - [0.95, 0.95, 0.95]
      transform:
        - [scale, 0.25, 0.25, 0.25]
";

#[test]
fn parses_camera() {
    let s = scene(SCENE).unwrap();
    assert_eq!(s.camera.width, 100);
    assert_eq!(s.camera.height, 50);
    assert!(matches!(&s.camera.field_of_view, Scalar::Real(t) if t == "0.785"));
    assert_eq!(triple(&s.camera.from), (-6.0, 6.0, -10.0));
    assert_eq!(triple(&s.camera.to), (6.0, 0.0, 6.0));
    assert_eq!(triple(&s.camera.up), (-0.45, 1.0, 0.0));
}

#[test]
fn parses_lights_in_order() {
    let s = scene(SCENE).unwrap();
    assert_eq!(s.lights.len(), 2);
    match &s.lights[0] {
        LightDescription::Point { intensity, at } => {
            assert_eq!(triple(intensity), (1.0, 1.0, 1.0));
            assert_eq!(triple(at), (50.0, 100.0, -50.0));
        }
        other => panic!("unexpected light {:?}", other),
    }
    match &s.lights[1] {
        LightDescription::Area { intensity, corner, uvec, usteps, vvec, vsteps } => {
            assert_eq!(triple(intensity), (1.5, 1.5, 1.5));
            assert_eq!(triple(corner), (-1.0, 2.0, 4.0));
            assert_eq!(triple(uvec), (2.0, 0.0, 0.0));
            assert_eq!(triple(vvec), (0.0, 2.0, 0.0));
            assert_eq!(*usteps, 4);
            assert_eq!(*vsteps, 3);
        }
        other => panic!("unexpected light {:?}", other),
    }
}

#[test]
fn parses_objects_in_order() {
    let s = scene(SCENE).unwrap();
    let shapes: Vec<ShapeKind> = s.objects.iter().map(|o| o.shape).collect();
    assert!(matches!(shapes[..], [ShapeKind::Plane(_), ShapeKind::Sphere(_), ShapeKind::Cube(_)]));
    assert!(s.objects[0].shadow);
    assert!(s.objects[1].shadow);
    assert!(!s.objects[2].shadow);
}

#[test]
fn material_given_in_place() {
    let s = scene(SCENE).unwrap();
    let m = &s.objects[0].material;
    assert_eq!(m.ambient.as_ref().map(num), Some(1.0));
    assert_eq!(m.diffuse.as_ref().map(num), Some(0.0));
    assert_eq!(m.specular.as_ref().map(num), Some(0.0));
    assert!(m.reflective.is_none());
    assert!(m.shininess.is_none());
    assert!(m.transparency.is_none());
    assert!(m.refractive_index.is_none());
    match &m.pattern {
        Some(PatternSource::Plain(c)) => assert_eq!(triple(c), (1.0, 1.0, 1.0)),
        other => panic!("unexpected pattern {:?}", other),
    }
}

#[test]
fn extended_definition_overrides_and_keeps_entries() {
    let s = scene(SCENE).unwrap();
    let m = &s.objects[1].material;
    assert_eq!(m.diffuse.as_ref().map(num), Some(0.7));
    assert_eq!(m.ambient.as_ref().map(num), Some(0.1));
    assert_eq!(m.specular.as_ref().map(num), Some(0.0));
    assert_eq!(m.reflective.as_ref().map(num), Some(0.1));
    match &m.pattern {
        Some(PatternSource::Plain(c)) => assert_eq!(triple(c), (0.537, 0.831, 0.914)),
        other => panic!("unexpected pattern {:?}", other),
    }
}

#[test]
fn transformations_follow_definitions_in_order() {
    let s = scene(SCENE).unwrap();
    assert_eq!(
        steps(&s.objects[0].transformations),
        vec![step("rotate-x", &[1.5]), step("translate", &[0.0, 0.0, 500.0])]
    );
    assert_eq!(
        steps(&s.objects[1].transformations),
        vec![
            step("translate", &[1.0, -1.0, 1.0]),
            step("scale", &[0.5, 0.5, 0.5]),
            step("scale", &[3.5, 3.5, 3.5]),
            step("translate", &[8.5, 1.5, -0.5]),
        ]
    );
    assert!(s.objects[2].transformations.is_empty());
}

#[test]
fn checkers_take_the_first_two_colors() {
    let s = scene(SCENE).unwrap();
    match &s.objects[2].material.pattern {
        Some(PatternSource::Pattern(p)) => {
            assert_eq!(p.kind, PatternKind::Checkers);
            assert_eq!(p.colors.len(), 2);
            assert_eq!(triple(&p.colors[0]), (0.35, 0.35, 0.35));
            assert_eq!(triple(&p.colors[1]), (0.65, 0.65, 0.65));
            assert_eq!(steps(&p.transformations), vec![step("scale", &[0.25, 0.25, 0.25])]);
        }
        other => panic!("unexpected pattern {:?}", other),
    }
}

#[test]
fn stripes_take_all_colors() {
    let text = format!(
        "{}
- add: sphere
  material:
    pattern:
      type: stripes
      colors:
        - [1, 0, 0]
        - [0, 1, 0]
        - [0, 0, 1]
",
        CAMERA
    );
    let s = scene(&text).unwrap();
    match &s.objects[0].material.pattern {
        Some(PatternSource::Pattern(p)) => {
            assert_eq!(p.kind, PatternKind::Stripes);
            assert_eq!(p.colors.len(), 3);
            assert_eq!(triple(&p.colors[2]), (0.0, 0.0, 1.0));
            assert!(p.transformations.is_empty());
        }
        other => panic!("unexpected pattern {:?}", other),
    }
}

#[test]
fn object_without_material_keeps_defaults() {
    let text = format!("{}\n- add: sphere\n", CAMERA);
    let s = scene(&text).unwrap();
    let m = &s.objects[0].material;
    assert!(m.ambient.is_none() && m.diffuse.is_none() && m.pattern.is_none());
    assert!(s.objects[0].shadow);
    assert!(s.lights.is_empty());
}

#[test]
fn last_camera_counts() {
    let text = format!(
        "{}
- add: camera
  width: 7
  height: 8
  field-of-view: 1
  from: [0, 0, 0]
  to: [0, 0, 1]
  up: [0, 1, 0]
",
        CAMERA
    );
    let s = scene(&text).unwrap();
    assert_eq!(s.camera.width, 7);
    assert_eq!(s.camera.height, 8);
    assert!(matches!(s.camera.field_of_view, Scalar::Integer(1)));
}

#[test]
fn a_scene_needs_a_camera() {
    assert!(scene("- add: sphere\n").is_none());
}

#[test]
fn an_unknown_shape_is_refused() {
    let text = format!("{}\n- add: cone\n", CAMERA);
    assert!(scene(&text).is_none());
}

#[test]
fn an_unknown_pattern_is_refused() {
    let text = format!(
        "{}
- add: sphere
  material:
    pattern:
      type: spots
      colors: [[1, 1, 1], [0, 0, 0]]
",
        CAMERA
    );
    assert!(scene(&text).is_none());
}

#[test]
fn a_light_without_position_is_refused() {
    let text = format!("{}\n- add: light\n  intensity: [1, 1, 1]\n", CAMERA);
    assert!(scene(&text).is_none());
}

#[test]
fn an_undefined_material_is_refused() {
    let text = format!("{}\n- add: sphere\n  material: nowhere\n", CAMERA);
    assert!(scene(&text).is_none());
}

#[test]
fn extending_a_list_is_refused() {
    let text = format!(
        "{}
- define: base
  value:
    color: [1, 1, 1]
- define: more
  extend: base
  value:
    - [scale, 1, 1, 1]
",
        CAMERA
    );
    assert!(scene(&text).is_none());
}

#[test]
fn definitions_that_refer_to_each_other_are_refused() {
    let text = format!(
        "{}
- define: a
  value:
    - b
- define: b
  value:
    - a
- add: sphere
  transform:
    - a
",
        CAMERA
    );
    assert!(scene(&text).is_none());
}

#[test]
fn the_last_definition_of_a_name_counts() {
    let text = format!(
        "{}
- define: t
  value:
    - [scale, 1, 1, 1]
- define: t
  value:
    - [rotate-y, 2]
- add: sphere
  transform:
    - t
",
        CAMERA
    );
    let s = scene(&text).unwrap();
    assert_eq!(steps(&s.objects[0].transformations), vec![step("rotate-y", &[2.0])]);
}

#[test]
fn a_shear_takes_six_numbers() {
    let text = format!(
        "{}
- add: cube
  transform:
    - [shear, 1, 0, 0, 0, 0, 0.5]
",
        CAMERA
    );
    let s = scene(&text).unwrap();
    assert_eq!(
        steps(&s.objects[0].transformations),
        vec![step("shear", &[1.0, 0.0, 0.0, 0.0, 0.0, 0.5])]
    );
    let short = format!("{}\n- add: cube\n  transform:\n    - [shear, 1, 0]\n", CAMERA);
    assert!(scene(&short).is_none());
}

#[test]
fn an_unknown_transformation_is_refused() {
    let text = format!("{}\n- add: cube\n  transform:\n    - [spin, 1]\n", CAMERA);
    assert!(scene(&text).is_none());
}

#[test]
fn definitions_are_collected_in_order() {
    let defs = get_definitions(&load(SCENE)).unwrap();
    let names: Vec<String> = defs
        .iter()
        .map(|(k, _)| match k {
            Yaml::String(s) => s.clone(),
            other => panic!("unexpected key {:?}", other),
        })
        .collect();
    assert_eq!(
        names,
        vec!["white-material", "blue-material", "standard-transform", "large-object"]
    );
    match &defs[1].1 {
        Yaml::Hash(entries) => {
            let keys: Vec<String> = entries
                .iter()
                .map(|(k, _)| match k {
                    Yaml::String(s) => s.clone(),
                    other => panic!("unexpected key {:?}", other),
                })
                .collect();
            assert_eq!(keys, vec!["diffuse", "ambient", "specular", "reflective", "color"]);
        }
        other => panic!("unexpected value {:?}", other),
    }
}

#[test]
fn mk_transform_reads_the_transform_key() {
    let doc = load(SCENE);
    let defs = get_definitions(&doc).unwrap();
    let entries = match load("transform:\n  - standard-transform\n  - [rotate-z, 3]\n") {
        Yaml::Hash(e) => e,
        other => panic!("unexpected document {:?}", other),
    };
    let ts = mk_transform(&defs, &entries).unwrap();
    assert_eq!(
        steps(&ts),
        vec![
            step("translate", &[1.0, -1.0, 1.0]),
            step("scale", &[0.5, 0.5, 0.5]),
            step("rotate-z", &[3.0]),
        ]
    );
}

#[test]
fn numbers_and_counts() {
    assert!(matches!(mk_f64(&Yaml::Integer(-3)), Some(Scalar::Integer(-3))));
    assert!(matches!(mk_f64(&Yaml::Real("2.5e1".to_string())), Some(Scalar::Real(t)) if t == "2.5e1"));
    assert!(mk_f64(&Yaml::String("x".to_string())).is_none());
    assert!(mk_f64(&Yaml::Real("1.2.3".to_string())).is_none());
    assert_eq!(mk_usize(&Yaml::Integer(12)), Some(12));
    assert_eq!(mk_usize(&Yaml::Integer(-1)), Some(usize::MAX));
    assert_eq!(mk_usize(&Yaml::Real("1.0".to_string())), None);
}

#[test]
fn a_document_that_is_not_a_list_is_refused() {
    assert!(scene("add: camera\n").is_none());
    assert!(get_definitions(&load("a: 1\n")).is_none());
}

#[test]
fn a_chain_as_deep_as_the_definitions_is_followed() {
    let text = format!(
        "{}
- define: t3
  value:
    - [scale, 3, 3, 3]
- define: t2
  value:
    - t3
    - [rotate-x, 2]
- define: t1
  value:
    - [rotate-y, 1]
    - t2
- add: sphere
  transform:
    - t1
    - [translate, 1, 2, 3]
",
        CAMERA
    );
    let s = scene(&text).unwrap();
    assert_eq!(
        steps(&s.objects[0].transformations),
        vec![
            step("rotate-y", &[1.0]),
            step("scale", &[3.0, 3.0, 3.0]),
            step("rotate-x", &[2.0]),
            step("translate", &[1.0, 2.0, 3.0]),
        ]
    );
}

#[test]
fn parse_text_agrees_with_parse_of_the_loaded_document() {
    let from_text = parse_text(SCENE).unwrap();
    let from_doc = parse(&load(SCENE)).unwrap();
    assert_eq!(format!("{:?}", from_text), format!("{:?}", from_doc));
}

#[test]
fn text_the_loader_refuses_or_without_documents_gives_no_scene() {
    assert!(parse_text("- [unclosed").is_none());
    assert!(parse_text("").is_none());
}

#[test]
fn only_the_first_document_counts() {
    let text = format!("{}
---
- add: sphere
", CAMERA);
    let s = parse_text(&text).unwrap();
    assert!(s.objects.is_empty());
}

#[test]
fn each_define_makes_one_definition_in_order() {
    let text = format!(
        "{}
- define: a
  value:
    color: [1, 0, 0]
- add: sphere
- define: b
  extend: a
  value:
    ambient: 0.5
- define: a
  value: [[scale, 1, 1, 1]]
",
        CAMERA
    );
    let defs = get_definitions(&load(&text)).unwrap();
    let names: Vec<String> = defs
        .iter()
        .map(|(k, _)| match k {
            Yaml::String(s) => s.clone(),
            other => panic!("unexpected key {:?}", other),
        })
        .collect();
    assert_eq!(names, vec!["a", "b", "a"]);
    match &defs[1].1 {
        Yaml::Hash(entries) => assert_eq!(entries.len(), 2),
        other => panic!("unexpected value {:?}", other),
    }
    assert!(matches!(&defs[2].1, Yaml::Array(items) if items.len() == 1));
}
