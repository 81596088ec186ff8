use raster_canvas::{Canvas, Color, Gesture, Image, Instrument, Pending, Point, ToolState};

fn at(x: i32, y: i32) -> Point {
    Point::from_pixel(x, y).unwrap()
}

fn red() -> Color {
    Color::from_rgb(255, 0, 0)
}

fn painted(canvas: &Canvas) -> Vec<(usize, usize)> {
    let mut found = Vec::new();
    for y in 0..canvas.height() {
        for x in 0..canvas.width() {
            if canvas.get(x, y) != Ok(Color::white()) {
                found.push((x, y));
            }
        }
    }
    found
}

#[test]
fn instrument_names() {
    assert_eq!(Instrument::Pencil.get_name(), "карандаш");
    assert_eq!(Instrument::Bucket.get_name(), "заливка");
    assert_eq!(Instrument::ImageBucket.get_name(), "заливка картинкой");
    assert_eq!(Instrument::Border.get_name(), "выделение границ");
    assert_eq!(Instrument::SharpLine.get_name(), "линия");
    assert_eq!(Instrument::SmoothLine.get_name(), "размытая линия");
    assert_eq!(Instrument::Triangle.get_name(), "треугольник");
    assert_eq!(Instrument::default(), Instrument::Pencil);
}

#[test]
fn tool_starts_with_the_pencil() {
    let tool = ToolState::new();
    assert_eq!(tool, ToolState { instrument: Instrument::Pencil, pending: Pending::Nothing });
    assert_eq!(ToolState::default(), tool);
}

#[test]
fn pencil_draws_on_drag_only() {
    let mut canvas = Canvas::new(3, 3);
    let mut tool = ToolState::new();
    assert!(!tool.handle(&mut canvas, Gesture::Click, at(1, 1), red(), None));
    assert_eq!(painted(&canvas), Vec::new());
    assert!(tool.handle(&mut canvas, Gesture::Drag, Point::new(300, 600), red(), None));
    assert_eq!(painted(&canvas), vec![(1, 2)]);
    assert!(tool.handle(&mut canvas, Gesture::Drag, at(3, 0), red(), None));
    assert_eq!(painted(&canvas), vec![(1, 2)]);
}

#[test]
fn bucket_fills_through_diagonals() {
    let mut canvas = Canvas::new(3, 3);
    canvas.set(1, 0, Color::black()).unwrap();
    canvas.set(0, 1, Color::black()).unwrap();
    let mut tool = ToolState::new();
    tool.switch_instrument(Instrument::Bucket);
    assert!(!tool.handle(&mut canvas, Gesture::Drag, at(0, 0), red(), None));
    assert_eq!(canvas.get(0, 0), Ok(Color::white()));
    assert!(tool.handle(&mut canvas, Gesture::Click, at(0, 0), red(), None));
    assert_eq!(canvas.get(0, 0), Ok(red()));
    assert_eq!(canvas.get(2, 2), Ok(red()));
    assert_eq!(canvas.get(1, 0), Ok(Color::black()));
}

#[test]
fn image_bucket_waits_for_an_image() {
    let mut canvas = Canvas::new(2, 2);
    let mut tool = ToolState::new();
    tool.switch_instrument(Instrument::ImageBucket);
    assert!(!tool.handle(&mut canvas, Gesture::Click, at(0, 0), red(), None));
    assert_eq!(painted(&canvas), Vec::new());
    let image = Image::new(1, 1, vec![red()]).unwrap();
    assert!(tool.handle(&mut canvas, Gesture::Click, at(0, 0), Color::black(), Some(&image)));
    assert_eq!(canvas.to_color_image().pixels(), &vec![red(); 4]);
}

#[test]
fn border_draws_the_traced_contour() {
    let mut canvas = Canvas::new(3, 3);
    let mut tool = ToolState::new();
    tool.switch_instrument(Instrument::Border);
    assert!(tool.handle(&mut canvas, Gesture::Click, at(0, 0), red(), None));
    assert_eq!(
        painted(&canvas),
        vec![(0, 0), (1, 0), (2, 0), (0, 1), (2, 1), (0, 2), (1, 2), (2, 2)]
    );
}

#[test]
fn line_tools_draw_on_the_second_click() {
    let mut canvas = Canvas::new(4, 4);
    let mut tool = ToolState::new();
    tool.switch_instrument(Instrument::SharpLine);
    assert!(!tool.handle(&mut canvas, Gesture::Click, at(0, 0), Color::black(), None));
    assert_eq!(tool.pending, Pending::One { pos: at(0, 0), color: Color::black() });
    assert_eq!(painted(&canvas), Vec::new());
    assert!(tool.handle(&mut canvas, Gesture::Click, at(3, 3), red(), None));
    assert_eq!(tool.pending, Pending::Nothing);
    assert_eq!(painted(&canvas), vec![(0, 0), (1, 1), (2, 2), (3, 3)]);
    assert_eq!(canvas.get(0, 0), Ok(red()));

    tool.switch_instrument(Instrument::SmoothLine);
    assert!(!tool.handle(&mut canvas, Gesture::Click, at(0, 3), red(), None));
    assert!(tool.handle(&mut canvas, Gesture::Click, at(2, 3), red(), None));
    assert_eq!(canvas.get(0, 3), Ok(red()));
    assert_eq!(canvas.get(1, 3), Ok(red()));
    assert_eq!(canvas.get(2, 3), Ok(red()));
}

#[test]
fn triangle_draws_on_the_third_click() {
    let mut canvas = Canvas::new(6, 6);
    let mut tool = ToolState::new();
    tool.switch_instrument(Instrument::Triangle);
    let green = Color::from_rgb(0, 255, 0);
    let blue = Color::from_rgb(0, 0, 255);
    assert!(!tool.handle(&mut canvas, Gesture::Click, at(0, 0), red(), None));
    assert!(!tool.handle(&mut canvas, Gesture::Click, at(4, 0), green, None));
    assert_eq!(
        tool.pending,
        Pending::Two { first_pos: at(0, 0), first_color: red(), second_pos: at(4, 0), second_color: green }
    );
    assert_eq!(painted(&canvas), Vec::new());
    assert!(tool.handle(&mut canvas, Gesture::Click, at(0, 4), blue, None));
    assert_eq!(tool.pending, Pending::Nothing);
    assert_eq!(canvas.get(0, 0), Ok(red()));
    assert_eq!(canvas.get(4, 0), Ok(green));
    assert_eq!(canvas.get(0, 4), Ok(blue));
    assert_eq!(canvas.get(1, 1), Ok(Color { r: 128, g: 64, b: 64, a: 255 }));
}

#[test]
fn switching_forgets_the_collected_clicks() {
    let mut canvas = Canvas::new(4, 4);
    let mut tool = ToolState::new();
    tool.switch_instrument(Instrument::Triangle);
    tool.handle(&mut canvas, Gesture::Click, at(0, 0), red(), None);
    tool.handle(&mut canvas, Gesture::Click, at(3, 0), red(), None);
    tool.switch_instrument(Instrument::SharpLine);
    assert_eq!(tool, ToolState { instrument: Instrument::SharpLine, pending: Pending::Nothing });
    assert!(!tool.handle(&mut canvas, Gesture::Click, at(1, 1), red(), None));
    assert_eq!(painted(&canvas), Vec::new());
}
