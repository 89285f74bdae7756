use ray_tracer::canvas::{Canvas, Rgb};

#[derive(Clone, Copy, Debug, PartialEq)]
struct Color {
    r: f64,
    g: f64,
    b: f64,
}

impl Color {
    fn black() -> Color {
        Color { r: 0.0, g: 0.0, b: 0.0 }
    }

    fn red() -> Color {
        Color { r: 1.0, g: 0.0, b: 0.0 }
    }
}

fn scale_color_component(component: f64) -> u8 {
    let component = if component < 0.0 {
        0.0
    } else if component > 1.0 {
        1.0
    } else {
        component
    };
    (component * 255.0) as u8
}

fn to_rgb(canvas: &Canvas<Color>) -> Canvas<Rgb> {
    let mut out = Canvas::new_with_color(canvas.width(), canvas.height(), (0, 0, 0));
    for row in 0..canvas.height() {
        for col in 0..canvas.width() {
            let c = canvas.pixel(row, col);
            out.set_pixel(
                row,
                col,
                (
                    scale_color_component(c.r),
                    scale_color_component(c.g),
                    scale_color_component(c.b),
                ),
            );
        }
    }
    out
}

#[test]
fn set_pixel() {
    let mut canvas = Canvas::new_with_color(10, 20, Color::black());
    canvas.set_pixel(2, 3, Color::red());

    assert_eq!(canvas.row(2)[3], Color::red());
    assert_eq!(canvas.row(0)[1], Color::black());
}

#[test]
fn write_ppm_header() {
    let canvas = Canvas::new_with_color(5, 3, (0u8, 0u8, 0u8));
    let mut ppm = String::new();
    canvas.write_ppm_header(&mut ppm);

    let expected = "P3
5 3
255
";

    assert_eq!(ppm, expected);
}

#[test]
fn ppm() {
    let mut canvas = Canvas::new_with_color(5, 3, Color::black());
    canvas.set_pixel(0, 0, Color { r: 1.5, g: 0.0, b: 0.0 });
    canvas.set_pixel(1, 2, Color { r: 0.0, g: 0.5, b: 0.0 });
    canvas.set_pixel(2, 4, Color { r: -0.5, g: 0.0, b: 1.0 });

    let ppm = to_rgb(&canvas).ppm();

    let expected = "P3
5 3
255
255 0 0 0 0 0 0 0 0 0 0 0 0 0 0
0 0 0 0 0 0 0 127 0 0 0 0 0 0 0
0 0 0 0 0 0 0 0 0 0 0 0 0 0 255
";

    assert_eq!(ppm, expected);
}

#[test]
fn new_canvas_holds_the_color_everywhere() {
    let canvas = Canvas::new_with_color(4, 2, (1u8, 2u8, 3u8));
    assert_eq!(canvas.width(), 4);
    assert_eq!(canvas.height(), 2);
    assert_eq!(canvas.pixels().len(), 8);
    assert!(canvas.pixels().iter().all(|p| *p == (1, 2, 3)));
}

#[test]
fn writing_a_pixel_leaves_the_others() {
    let mut canvas = Canvas::new_with_color(3, 3, (0u8, 0u8, 0u8));
    canvas.set_pixel(1, 2, (9, 8, 7));
    for row in 0..3 {
        for col in 0..3 {
            let expected = if row == 1 && col == 2 { (9, 8, 7) } else { (0, 0, 0) };
            assert_eq!(*canvas.pixel(row, col), expected);
        }
    }
    assert_eq!(canvas.pixels()[5], (9, 8, 7));
}

#[test]
fn ppm_of_an_empty_canvas_is_the_header() {
    let canvas = Canvas::new_with_color(0, 0, (0u8, 0u8, 0u8));
    assert_eq!(canvas.ppm(), "P3\n0 0\n255\n");
}

#[test]
fn ppm_header_appends_to_existing_text() {
    let canvas = Canvas::new_with_color(120, 7, (0u8, 0u8, 0u8));
    let mut ppm = String::from("x");
    canvas.write_ppm_header(&mut ppm);
    assert_eq!(ppm, "xP3\n120 7\n255\n");
}

#[test]
fn ppm_of_a_single_column() {
    let mut canvas = Canvas::new_with_color(1, 2, (0u8, 0u8, 0u8));
    canvas.set_pixel(1, 0, (255, 10, 100));
    assert_eq!(canvas.ppm(), "P3\n1 2\n255\n0 0 0\n255 10 100\n");
}

#[test]
fn a_new_canvas_is_black() {
    let canvas = Canvas::new(10, 20);
    assert_eq!(canvas.width(), 10);
    assert_eq!(canvas.height(), 20);
    assert!(canvas.pixels().iter().all(|p| *p == (0, 0, 0)));
}
