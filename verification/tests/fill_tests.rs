use raster_canvas::{Canvas, Color, Connectivity, Image, Point};

fn at(x: i32, y: i32) -> Point {
    Point::from_pixel(x, y).unwrap()
}

fn red() -> Color {
    Color::from_rgb(255, 0, 0)
}

fn snapshot(canvas: &Canvas) -> Vec<Color> {
    canvas.to_color_image().pixels().clone()
}

/// A 3x3 canvas whose pixel (0, 0) touches the rest of the white pixels
/// only diagonally, at (1, 1).
fn diagonal_gap() -> Canvas {
    let mut canvas = Canvas::new(3, 3);
    canvas.set(1, 0, Color::black()).unwrap();
    canvas.set(0, 1, Color::black()).unwrap();
    canvas
}

#[test]
fn fill_with_the_same_colour_changes_nothing() {
    let mut canvas = diagonal_gap();
    let before = snapshot(&canvas);
    canvas.fill_with_color(at(1, 1), Color::white(), Connectivity::EIGHT);
    assert_eq!(snapshot(&canvas), before);
    canvas.fill_with_color(at(1, 0), Color::black(), Connectivity::FOUR);
    assert_eq!(snapshot(&canvas), before);
}

#[test]
fn fill_outside_the_canvas_changes_nothing() {
    let mut canvas = diagonal_gap();
    let before = snapshot(&canvas);
    canvas.fill_with_color(at(3, 0), red(), Connectivity::EIGHT);
    canvas.fill_with_color(at(0, 3), red(), Connectivity::EIGHT);
    canvas.fill_with_color(Point::new(-1, 0), red(), Connectivity::EIGHT);
    canvas.fill_with_color(Point::new(0, -1), red(), Connectivity::FOUR);
    assert_eq!(snapshot(&canvas), before);
}

#[test]
fn four_connectivity_stops_at_a_diagonal_gap() {
    let mut canvas = diagonal_gap();
    canvas.fill_with_color(at(0, 0), red(), Connectivity::FOUR);
    let w = Color::white();
    let k = Color::black();
    assert_eq!(snapshot(&canvas), vec![red(), k, w, k, w, w, w, w, w]);
}

#[test]
fn eight_connectivity_passes_a_diagonal_gap() {
    let mut canvas = diagonal_gap();
    canvas.fill_with_color(at(0, 0), red(), Connectivity::EIGHT);
    let k = Color::black();
    let r = red();
    assert_eq!(snapshot(&canvas), vec![r, k, r, k, r, r, r, r, r]);
}

#[test]
fn fill_from_the_far_side_of_the_gap() {
    let mut canvas = diagonal_gap();
    canvas.fill_with_color(at(2, 2), red(), Connectivity::FOUR);
    let w = Color::white();
    let k = Color::black();
    let r = red();
    assert_eq!(snapshot(&canvas), vec![w, k, r, k, r, r, r, r, r]);
}

#[test]
fn fill_takes_the_pixel_that_holds_the_point() {
    let mut canvas = Canvas::new(2, 1);
    canvas.set(1, 0, Color::black()).unwrap();
    canvas.fill_with_color(Point::new(255, 255), red(), Connectivity::FOUR);
    assert_eq!(snapshot(&canvas), vec![red(), Color::black()]);
    canvas.fill_with_color(Point::new(256, 0), Color::white(), Connectivity::FOUR);
    assert_eq!(snapshot(&canvas), vec![red(), Color::white()]);
}

#[test]
fn fill_is_bounded_by_other_colours() {
    // a black ring around the centre of a 5x5 canvas
    let mut canvas = Canvas::new(5, 5);
    for i in 1..4 {
        canvas.set(i, 1, Color::black()).unwrap();
        canvas.set(i, 3, Color::black()).unwrap();
        canvas.set(1, i, Color::black()).unwrap();
        canvas.set(3, i, Color::black()).unwrap();
    }
    canvas.fill_with_color(at(0, 0), red(), Connectivity::EIGHT);
    assert_eq!(canvas.get(2, 2), Ok(Color::white()));
    assert_eq!(canvas.get(1, 1), Ok(Color::black()));
    for i in 0..5 {
        assert_eq!(canvas.get(i, 0), Ok(red()));
        assert_eq!(canvas.get(i, 4), Ok(red()));
        assert_eq!(canvas.get(0, i), Ok(red()));
        assert_eq!(canvas.get(4, i), Ok(red()));
    }
    canvas.fill_with_color(at(2, 2), Color::from_rgb(0, 0, 255), Connectivity::EIGHT);
    assert_eq!(canvas.get(2, 2), Ok(Color::from_rgb(0, 0, 255)));
    assert_eq!(canvas.get(0, 0), Ok(red()));
}

fn pattern() -> Image {
    let a = Color::from_rgb(10, 0, 0);
    let b = Color::from_rgb(20, 0, 0);
    let c = Color::from_rgb(30, 0, 0);
    let d = Color::from_rgb(40, 0, 0);
    Image::new(2, 2, vec![a, b, c, d]).unwrap()
}

#[test]
fn pattern_fill_is_anchored_at_the_seed() {
    let mut canvas = Canvas::new(5, 5);
    let image = pattern();
    canvas.fill_with_img(at(2, 2), &image, Connectivity::EIGHT);
    let a = Color::from_rgb(10, 0, 0);
    let b = Color::from_rgb(20, 0, 0);
    let c = Color::from_rgb(30, 0, 0);
    let d = Color::from_rgb(40, 0, 0);
    assert_eq!(canvas.get(2, 2), Ok(a));
    assert_eq!(canvas.get(4, 2), Ok(a));
    assert_eq!(canvas.get(2, 4), Ok(a));
    assert_eq!(canvas.get(3, 2), Ok(b));
    assert_eq!(canvas.get(2, 3), Ok(c));
    assert_eq!(canvas.get(3, 3), Ok(d));
    // offsets to the left of and above the seed wrap round
    assert_eq!(canvas.get(1, 2), Ok(b));
    assert_eq!(canvas.get(0, 2), Ok(a));
    assert_eq!(canvas.get(2, 1), Ok(c));
    assert_eq!(canvas.get(1, 1), Ok(d));
    assert_eq!(canvas.get(0, 0), Ok(a));
    assert_eq!(
        snapshot(&canvas),
        vec![a, b, a, b, a, c, d, c, d, c, a, b, a, b, a, c, d, c, d, c, a, b, a, b, a]
    );
}

#[test]
fn pattern_fill_stays_inside_the_region() {
    let mut canvas = diagonal_gap();
    let image = pattern();
    canvas.fill_with_img(at(0, 0), &image, Connectivity::FOUR);
    let w = Color::white();
    let k = Color::black();
    assert_eq!(snapshot(&canvas), vec![Color::from_rgb(10, 0, 0), k, w, k, w, w, w, w, w]);
}

#[test]
fn pattern_fill_with_the_region_colour_in_the_image_ends() {
    let mut canvas = Canvas::new(4, 4);
    let w = Color::white();
    let image = Image::new(2, 1, vec![w, red()]).unwrap();
    canvas.fill_with_img(at(1, 1), &image, Connectivity::EIGHT);
    let r = red();
    assert_eq!(snapshot(&canvas), vec![r, w, r, w, r, w, r, w, r, w, r, w, r, w, r, w]);
}

#[test]
fn pattern_fill_without_pixels_or_seed_changes_nothing() {
    let mut canvas = diagonal_gap();
    let before = snapshot(&canvas);
    canvas.fill_with_img(at(1, 1), &Image::empty(), Connectivity::EIGHT);
    canvas.fill_with_img(at(1, 1), &Image::new(0, 3, Vec::new()).unwrap(), Connectivity::EIGHT);
    canvas.fill_with_img(at(5, 1), &pattern(), Connectivity::EIGHT);
    assert_eq!(snapshot(&canvas), before);
}

#[test]
fn fill_then_trace_gives_the_fill_colour() {
    let mut canvas = diagonal_gap();
    canvas.fill_with_color(at(2, 2), red(), Connectivity::EIGHT);
    let contour = canvas.trace_boundary(at(2, 2));
    assert!(!contour.is_empty());
    for (x, y) in contour {
        assert_eq!(canvas.get(x, y), Ok(red()));
    }
}

#[test]
fn fill_a_large_canvas() {
    let mut canvas = Canvas::new(300, 200);
    canvas.fill_with_color(at(150, 100), red(), Connectivity::FOUR);
    assert_eq!(snapshot(&canvas), vec![red(); 60000]);
}
