use raster_canvas::{Canvas, Color, Point};

fn at(x: i32, y: i32) -> Point {
    Point::from_pixel(x, y).unwrap()
}

fn touching(a: (usize, usize), b: (usize, usize)) -> bool {
    a != b && a.0.abs_diff(b.0) <= 1 && a.1.abs_diff(b.1) <= 1
}

#[test]
fn trace_outside_the_canvas_is_empty() {
    let canvas = Canvas::new(3, 3);
    assert_eq!(canvas.trace_boundary(at(3, 0)), Vec::new());
    assert_eq!(canvas.trace_boundary(at(0, 3)), Vec::new());
    assert_eq!(canvas.trace_boundary(Point::new(-1, 0)), Vec::new());
    assert_eq!(Canvas::new(0, 0).trace_boundary(at(0, 0)), Vec::new());
}

#[test]
fn trace_of_a_single_pixel() {
    let mut canvas = Canvas::new(3, 3);
    canvas.set(1, 1, Color::black()).unwrap();
    assert_eq!(canvas.trace_boundary(at(1, 1)), vec![(1, 1)]);
    assert_eq!(Canvas::new(1, 1).trace_boundary(at(0, 0)), vec![(0, 0)]);
}

#[test]
fn trace_round_a_filled_canvas() {
    let canvas = Canvas::new(3, 3);
    let contour = canvas.trace_boundary(at(0, 0));
    assert_eq!(
        contour,
        vec![(0, 0), (0, 1), (0, 2), (1, 2), (2, 2), (2, 1), (2, 0), (1, 0), (0, 0)]
    );
    assert!(contour.len() <= 9);
    assert_eq!(contour[0], contour[contour.len() - 1]);
}

#[test]
fn trace_round_a_filled_rectangle() {
    let mut canvas = Canvas::new(6, 5);
    for y in 1..4 {
        for x in 1..5 {
            canvas.set(x, y, Color::black()).unwrap();
        }
    }
    let contour = canvas.trace_boundary(at(1, 1));
    assert_eq!(
        contour,
        vec![(1, 1), (1, 2), (1, 3), (2, 3), (3, 3), (4, 3), (4, 2), (4, 1), (3, 1), (2, 1), (1, 1)]
    );
    assert!(contour.len() <= 30);
    assert_eq!(contour[0], contour[contour.len() - 1]);
    for i in 1..contour.len() {
        assert!(touching(contour[i - 1], contour[i]));
    }
    for &(x, y) in &contour {
        assert_eq!(canvas.get(x, y), Ok(Color::black()));
    }
}

#[test]
fn trace_round_a_small_square() {
    let mut canvas = Canvas::new(5, 5);
    canvas.set(1, 1, Color::black()).unwrap();
    canvas.set(2, 1, Color::black()).unwrap();
    canvas.set(1, 2, Color::black()).unwrap();
    canvas.set(2, 2, Color::black()).unwrap();
    let contour = canvas.trace_boundary(at(1, 1));
    assert_eq!(contour, vec![(1, 1), (1, 2), (2, 2), (2, 1), (1, 1)]);
    assert!(2 <= contour.len() && contour.len() <= 25);
    // from the corner that lies neither in the left column nor in the bottom row
    assert_eq!(canvas.trace_boundary(at(2, 1)), vec![(2, 1), (2, 2), (1, 2), (1, 1), (2, 1)]);
}

#[test]
fn trace_from_inside_a_region_turns_in_a_small_loop() {
    let canvas = Canvas::new(5, 5);
    assert_eq!(canvas.trace_boundary(at(2, 2)), vec![(2, 2), (2, 3), (1, 3), (1, 2), (2, 2)]);
}

#[test]
fn trace_along_a_column_goes_down_and_back() {
    let mut canvas = Canvas::new(3, 3);
    for y in 0..3 {
        canvas.set(1, y, Color::black()).unwrap();
    }
    assert_eq!(canvas.trace_boundary(at(1, 0)), vec![(1, 0), (1, 1), (1, 2), (1, 1), (1, 0)]);
    assert_eq!(canvas.trace_boundary(at(1, 1)), vec![(1, 1), (1, 2), (1, 1)]);
    assert_eq!(canvas.trace_boundary(at(1, 2)), vec![(1, 2), (1, 1), (1, 0), (1, 1), (1, 2)]);
}

#[test]
fn trace_along_a_row_goes_right_and_back() {
    let mut canvas = Canvas::new(3, 3);
    for x in 0..3 {
        canvas.set(x, 1, Color::black()).unwrap();
    }
    assert_eq!(canvas.trace_boundary(at(0, 1)), vec![(0, 1), (1, 1), (2, 1), (1, 1), (0, 1)]);
    assert_eq!(canvas.trace_boundary(at(2, 1)), vec![(2, 1), (1, 1), (0, 1), (1, 1), (2, 1)]);
}

#[test]
fn trace_ends_when_it_has_recorded_more_pixels_than_the_canvas_holds() {
    // the way down and back up a column of three takes four pixels; on a canvas
    // of three the walk ends there, before it records the seed again
    let canvas = Canvas::new(1, 3);
    let contour = canvas.trace_boundary(at(0, 0));
    assert_eq!(contour, vec![(0, 0), (0, 1), (0, 2), (0, 1)]);
    assert_eq!(contour.len(), 3 + 1);
    // a canvas of two pixels has room for the way out
    assert_eq!(Canvas::new(1, 2).trace_boundary(at(0, 0)), vec![(0, 0), (0, 1), (0, 0)]);
    assert_eq!(Canvas::new(2, 2).trace_boundary(at(0, 0)), vec![(0, 0), (0, 1), (1, 1), (1, 0), (0, 0)]);
}

#[test]
fn trace_takes_the_pixel_that_holds_the_point() {
    let mut canvas = Canvas::new(2, 1);
    canvas.set(1, 0, Color::black()).unwrap();
    assert_eq!(canvas.trace_boundary(Point::new(511, 255)), vec![(1, 0)]);
    assert_eq!(canvas.trace_boundary(Point::new(255, 0)), vec![(0, 0)]);
}

#[test]
fn traced_boundary_can_be_drawn() {
    let mut canvas = Canvas::new(3, 3);
    let contour = canvas.trace_boundary(at(0, 0));
    canvas.draw_boundary(&contour, Color::black());
    let k = Color::black();
    let w = Color::white();
    assert_eq!(canvas.to_color_image().pixels(), &vec![k, k, k, k, w, k, k, k, k]);
}
