use ray_tracer::obj::{group_faces, mk_triangles, parse_data, Coordinates, Data, Face, FaceVertex};

fn point(c: &Coordinates) -> (f64, f64, f64) {
    (
        c.x.parse::<f64>().unwrap(),
        c.y.parse::<f64>().unwrap(),
        c.z.parse::<f64>().unwrap(),
    )
}

fn corner(vertex_index: usize) -> FaceVertex {
    FaceVertex {
        vertex_index,
        normal_index: None,
    }
}

#[test]
fn ignoring_unrecognized_lines() {
    let txt = r#"
        foo
        bar dqskdqs

        dqsqds
        "#;

    let data = parse_data(&txt).unwrap();
    assert_eq!(data.ignored, 6);
}

#[test]
fn vertex_records() {
    let txt = r#"
        v -1 1 0
        v -1.0000 0.5000 0.0000
        v 1 0 0
        v 1 1 0
        dqsqds
        "#;

    let data = parse_data(&txt).unwrap();
    assert_eq!(data.ignored, 3);
    assert_eq!(data.vertices.len(), 5);
    assert_eq!(point(&data.vertices[1]), (-1.0, 1.0, 0.0));
    assert_eq!(point(&data.vertices[2]), (-1.0, 0.5, 0.0));
    assert_eq!(point(&data.vertices[3]), (1.0, 0.0, 0.0));
    assert_eq!(point(&data.vertices[4]), (1.0, 1.0, 0.0));
}

#[test]
fn vertex_normal_records() {
    let txt = r#"
        vn 0 0 1
        vn 0.707 0 -0.707
        vn 1 2 3
        "#;

    let data = parse_data(&txt).unwrap();
    assert_eq!(data.normals.len(), 4);
    assert_eq!(point(&data.normals[1]), (0.0, 0.0, 1.0));
    assert_eq!(point(&data.normals[2]), (0.707, 0.0, -0.707));
    assert_eq!(point(&data.normals[3]), (1.0, 2.0, 3.0));
}

#[test]
fn vertex_invalid_record() {
    {
        let txt = r#"
                v -1 1 0
                v -1.0000 0.5000 0.0000
                v 3
                v 1 0 0
                v 1 1 0
                "#;

        let data = parse_data(&txt);
        assert!(data.is_err());
        let err = data.unwrap_err();
        assert_eq!(err.to_string(), "Invalid vertex `v 3` at line 4");
    }
    {
        let txt = r#"
                v -1 a 0
                "#;

        let data = parse_data(&txt);
        assert!(data.is_err());
        let err = data.unwrap_err();
        assert_eq!(err.to_string(), "Invalid vertex `v -1 a 0` at line 2");
    }
}

#[test]
fn parse_triangle_faces() {
    {
        let txt = r#"
                v -1 1 0
                v -1 0 0
                v 1 0 0
                v 1 1 0

                f 1 2 3
                f 1 3 4
                "#;

        let data = parse_data(&txt).unwrap();

        assert_eq!(data.ignored, 3);
        assert_eq!(data.vertices.len(), 5);
        assert_eq!(point(&data.vertices[1]), (-1.0, 1.0, 0.0));
        assert_eq!(point(&data.vertices[2]), (-1.0, 0.0, 0.0));
        assert_eq!(point(&data.vertices[3]), (1.0, 0.0, 0.0));
        assert_eq!(point(&data.vertices[4]), (1.0, 1.0, 0.0));

        assert_eq!(data.faces.len(), 2);
        assert_eq!(
            data.faces[0],
            Face {
                group: None,
                vertices: vec![corner(1), corner(2), corner(3)]
            }
        );
        assert_eq!(
            data.faces[1],
            Face {
                group: None,
                vertices: vec![corner(1), corner(3), corner(4)]
            }
        );
    }
    {
        let txt = r#"
                v -1 1 0
                v -1 0 0
                v 1 0 0
                v 1 1 0

                g FirstGroup
                f 1 2 3
                g SecondGroup
                f 1 3 4
                f 2 3 4
                "#;

        let data = parse_data(&txt).unwrap();

        assert_eq!(data.ignored, 3);
        assert_eq!(data.vertices.len(), 5);
        assert_eq!(point(&data.vertices[1]), (-1.0, 1.0, 0.0));
        assert_eq!(point(&data.vertices[2]), (-1.0, 0.0, 0.0));
        assert_eq!(point(&data.vertices[3]), (1.0, 0.0, 0.0));
        assert_eq!(point(&data.vertices[4]), (1.0, 1.0, 0.0));

        assert_eq!(data.faces.len(), 3);
        assert_eq!(
            data.faces[0],
            Face {
                group: Some("FirstGroup".to_string()),
                vertices: vec![corner(1), corner(2), corner(3)]
            }
        );
        assert_eq!(
            data.faces[1],
            Face {
                group: Some("SecondGroup".to_string()),
                vertices: vec![corner(1), corner(3), corner(4)]
            }
        );
        assert_eq!(
            data.faces[2],
            Face {
                group: Some("SecondGroup".to_string()),
                vertices: vec![corner(2), corner(3), corner(4)]
            }
        );
    }
}

fn vertex(data: &Data, index: usize) -> (f64, f64, f64) {
    point(&data.vertices[index])
}

fn normal(data: &Data, index: usize) -> (f64, f64, f64) {
    point(&data.normals[index])
}

#[test]
fn polygon() {
    let txt = r#"
            v -1 1 0
            v -1 0 0
            v 1 0 0
            v 1 1 0
            v 0 2 0

            f 1 2 3 4 5
            "#;

    let data = parse_data(&txt).unwrap();

    let face = &data.faces[0];
    let triangles = mk_triangles(face);

    assert_eq!(triangles.len(), 3);

    let t0 = triangles[0];
    assert!(t0.normals.is_none());
    assert_eq!(vertex(&data, t0.vertices.0), vertex(&data, 1));
    assert_eq!(vertex(&data, t0.vertices.1), vertex(&data, 2));
    assert_eq!(vertex(&data, t0.vertices.2), vertex(&data, 3));

    let t1 = triangles[1];
    assert!(t1.normals.is_none());
    assert_eq!(vertex(&data, t1.vertices.0), vertex(&data, 1));
    assert_eq!(vertex(&data, t1.vertices.1), vertex(&data, 3));
    assert_eq!(vertex(&data, t1.vertices.2), vertex(&data, 4));

    let t2 = triangles[2];
    assert!(t2.normals.is_none());
    assert_eq!(vertex(&data, t2.vertices.0), vertex(&data, 1));
    assert_eq!(vertex(&data, t2.vertices.1), vertex(&data, 4));
    assert_eq!(vertex(&data, t2.vertices.2), vertex(&data, 5));
}

#[test]
fn faces_with_normal() {
    let txt = r#"
    v 0 1 0
    v -1 0 0
    v 1 0 0

    vn -1 0 0
    vn 1 0 0
    vn 0 1 0

    f 1//3 2//1 3//2
    f 1/0/3 2/102/1 3/14/2
    "#;

    let data = parse_data(&txt).unwrap();

    for face in &data.faces {
        let triangles = mk_triangles(face);
        assert_eq!(triangles.len(), 1);

        let t = triangles[0];
        let n = t.normals.unwrap();
        assert_eq!(vertex(&data, t.vertices.0), vertex(&data, 1));
        assert_eq!(vertex(&data, t.vertices.1), vertex(&data, 2));
        assert_eq!(vertex(&data, t.vertices.2), vertex(&data, 3));
        assert_eq!(normal(&data, n.0), normal(&data, 3));
        assert_eq!(normal(&data, n.1), normal(&data, 1));
        assert_eq!(normal(&data, n.2), normal(&data, 2));
    }
}

#[test]
fn has_normals_reads_the_first_corner() {
    let data = parse_data("f 1//2 2 3\nf 1 2//2 3//3\n").unwrap();
    assert!(data.faces[0].has_normals());
    assert!(!data.faces[1].has_normals());
}

#[test]
fn invalid_group_face_and_normal_messages() {
    let err = parse_data("v 0 0 0\n  g  A B \n").unwrap_err();
    assert_eq!(err.to_string(), "Invalid group `g  A B` at line 2");

    let err = parse_data("f 1 2\n").unwrap_err();
    assert_eq!(err.to_string(), "Invalid face `f 1 2` at line 1");

    let err = parse_data("\n\nf 1 x 3\n").unwrap_err();
    assert_eq!(err.to_string(), "Invalid face `f 1 x 3` at line 3");

    let err = parse_data("f 1/2 2 3\n").unwrap_err();
    assert_eq!(err.to_string(), "Invalid face `f 1/2 2 3` at line 1");

    let err = parse_data("vn 1 2\n").unwrap_err();
    assert_eq!(err.to_string(), "Invalid normal `vn 1 2` at line 1");

    let err = parse_data("vn 1 2 1e\n").unwrap_err();
    assert_eq!(err.to_string(), "Invalid normal `vn 1 2 1e` at line 1");
}

#[test]
fn the_first_error_stops_reading() {
    let err = parse_data("v 1 2\nf 1\n").unwrap_err();
    assert_eq!(err.to_string(), "Invalid vertex `v 1 2` at line 1");
}

#[test]
fn float_forms_that_f64_accepts() {
    let data = parse_data("v +1. .5 -2e3\nv inf -NaN Infinity\nv 1E+2 0.0e-1 7\n").unwrap();
    assert_eq!(data.vertices.len(), 4);
    for bad in ["v . 1 1", "v 1 1 e5", "v 1 1 infin", "v 1 1 1.2.3", "v 1 1 --1", "v 1 1 0x10"] {
        assert!(parse_data(bad).is_err(), "{}", bad);
    }
}

#[test]
fn face_indices_follow_usize_parsing() {
    let data = parse_data("f +1 2/7/ 3//x\n").unwrap();
    assert_eq!(
        data.faces[0].vertices,
        vec![
            corner(1),
            corner(2),
            FaceVertex {
                vertex_index: 3,
                normal_index: None
            }
        ]
    );
    assert!(parse_data("f -1 2 3\n").is_err());
    assert!(parse_data("f 99999999999999999999999 2 3\n").is_err());
}

#[test]
fn lines_end_with_carriage_returns_and_a_last_line_without_feed() {
    let data = parse_data("v 1 2 3\r\nf 1 1 1").unwrap();
    assert_eq!(data.vertices.len(), 2);
    assert_eq!(data.faces.len(), 1);
    assert_eq!(parse_data("").unwrap().ignored, 0);
    assert_eq!(parse_data("\n").unwrap().ignored, 1);
}

#[test]
fn faces_sorted_by_group() {
    let txt = "f 1 2 3\ng A\nf 1 2 3\ng B\nf 1 2 3\ng A\nf 1 2 3\ng C\ng B\nf 1 2 3\n";
    let data = parse_data(txt).unwrap();
    let groups = group_faces(&data.faces);
    assert_eq!(groups.anonymous, vec![0]);
    assert_eq!(
        groups.named,
        vec![
            ("A".to_string(), vec![1, 3]),
            ("B".to_string(), vec![2, 4])
        ]
    );
}

#[test]
fn placeholders_stay_first_and_records_never_outnumber_lines() {
    let txt = "v 1 2 3\nvn 0 1 0\n\nf 1 1 1 1\nfoo\ng G\nv 4 5 6\n";
    let data = parse_data(txt).unwrap();
    assert_eq!(point(&data.vertices[0]), (0.0, 0.0, 0.0));
    assert_eq!(point(&data.normals[0]), (0.0, 0.0, 0.0));
    assert!(data.faces.iter().all(|f| f.vertices.len() >= 3));
    let records = data.ignored + (data.vertices.len() - 1) + (data.normals.len() - 1) + data.faces.len();
    assert_eq!(records, 6);
    assert!(records <= txt.lines().count());
}

#[test]
fn every_face_is_listed_once_under_its_group() {
    let txt = "g X\nf 1 2 3\nf 1 2 3\ng Y\nf 1 2 3\ng X\nf 1 2 3\n";
    let data = parse_data(txt).unwrap();
    let groups = group_faces(&data.faces);
    assert!(groups.anonymous.is_empty());
    for (f, face) in data.faces.iter().enumerate() {
        let name = face.group.clone().unwrap();
        let holders: Vec<&String> = groups
            .named
            .iter()
            .filter(|(_, members)| members.contains(&f))
            .map(|(n, _)| n)
            .collect();
        assert_eq!(holders, vec![&name]);
    }
    assert_eq!(
        groups.named,
        vec![("X".to_string(), vec![0, 1, 3]), ("Y".to_string(), vec![2])]
    );
}

#[test]
fn no_faces_no_groups() {
    let groups = group_faces(&Vec::<Face>::new());
    assert!(groups.anonymous.is_empty());
    assert!(groups.named.is_empty());
}

#[test]
fn records_follow_the_lines_in_order_and_faces_take_the_last_group() {
    let txt = "g A\nv 1 2 3\nfoo\nvn 0 0 1\nf 1 1 1\ng B\n\nf 1 1 1\nv 4 5 6\nf 2 2 2\n";
    let data = parse_data(txt).unwrap();
    assert_eq!(data.vertices.len(), 1 + 2);
    assert_eq!(data.normals.len(), 1 + 1);
    assert_eq!(data.faces.len(), 3);
    assert_eq!(data.ignored, 2);
    assert_eq!(point(&data.vertices[1]), (1.0, 2.0, 3.0));
    assert_eq!(point(&data.vertices[2]), (4.0, 5.0, 6.0));
    assert_eq!(point(&data.normals[1]), (0.0, 0.0, 1.0));
    let groups: Vec<Option<String>> = data.faces.iter().map(|f| f.group.clone()).collect();
    assert_eq!(groups, vec![Some("A".to_string()), Some("B".to_string()), Some("B".to_string())]);
    assert_eq!(data.faces[2].vertices, vec![corner(2), corner(2), corner(2)]);
}
