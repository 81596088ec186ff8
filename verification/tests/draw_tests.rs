use raster_canvas::{Canvas, Color, Point};

fn at(x: i32, y: i32) -> Point {
    Point::from_pixel(x, y).unwrap()
}

fn red() -> Color {
    Color::from_rgb(255, 0, 0)
}

fn snapshot(canvas: &Canvas) -> Vec<Color> {
    canvas.to_color_image().pixels().clone()
}

/// The pixels that differ from white, row by row.
fn painted(canvas: &Canvas) -> Vec<(usize, usize)> {
    let mut found = Vec::new();
    for y in 0..canvas.height() {
        for x in 0..canvas.width() {
            if canvas.get(x, y) != Ok(Color::white()) {
                found.push((x, y));
            }
        }
    }
    found
}

#[test]
fn sharp_diagonal_line() {
    let mut canvas = Canvas::new(5, 5);
    canvas.draw_sharp_line(at(0, 0), at(3, 3), red());
    assert_eq!(painted(&canvas), vec![(0, 0), (1, 1), (2, 2), (3, 3)]);
    for i in 0..4 {
        assert_eq!(canvas.get(i, i), Ok(red()));
    }
}

#[test]
fn sharp_line_overwrites_without_blending() {
    let mut canvas = Canvas::new(4, 1);
    canvas.clear(Color::black());
    let c = Color { r: 10, g: 20, b: 30, a: 40 };
    canvas.draw_sharp_line(at(0, 0), at(3, 0), c);
    assert_eq!(snapshot(&canvas), vec![c; 4]);
}

#[test]
fn sharp_shallow_line() {
    let mut canvas = Canvas::new(5, 5);
    canvas.draw_sharp_line(at(0, 0), at(3, 1), red());
    assert_eq!(painted(&canvas), vec![(0, 0), (1, 0), (2, 1), (3, 1)]);
}

#[test]
fn sharp_steep_line_backwards() {
    let mut canvas = Canvas::new(5, 5);
    canvas.draw_sharp_line(at(1, 4), at(0, 0), red());
    assert_eq!(painted(&canvas), vec![(0, 0), (0, 1), (0, 2), (1, 3), (1, 4)]);
}

#[test]
fn sharp_line_of_one_pixel() {
    let mut canvas = Canvas::new(3, 3);
    canvas.draw_sharp_line(at(1, 2), at(1, 2), red());
    assert_eq!(painted(&canvas), vec![(1, 2)]);
}

#[test]
fn sharp_line_rounds_its_ends() {
    let mut canvas = Canvas::new(4, 4);
    // (0.49, 0.5) rounds to (0, 1); (2.5, 0.6) rounds to (3, 1)
    canvas.draw_sharp_line(Point::new(127, 128), Point::new(640, 154), red());
    assert_eq!(painted(&canvas), vec![(0, 1), (1, 1), (2, 1), (3, 1)]);
}

#[test]
fn sharp_line_with_an_end_outside_draws_nothing() {
    let mut canvas = Canvas::new(4, 4);
    canvas.draw_sharp_line(at(0, 0), at(4, 2), red());
    canvas.draw_sharp_line(at(0, 4), at(1, 1), red());
    canvas.draw_sharp_line(at(-1, 0), at(1, 1), red());
    assert_eq!(painted(&canvas), Vec::new());
}

#[test]
fn boundary_is_drawn_over_the_canvas() {
    let mut canvas = Canvas::new(3, 2);
    canvas.draw_boundary(&[(0, 0), (2, 1), (3, 0), (0, 2), (2, 1)], red());
    assert_eq!(painted(&canvas), vec![(0, 0), (2, 1)]);
    canvas.draw_boundary(&[], Color::black());
    assert_eq!(painted(&canvas), vec![(0, 0), (2, 1)]);
}

#[test]
fn smooth_horizontal_line_covers_its_row_in_full() {
    let mut canvas = Canvas::new(5, 4);
    let c = Color { r: 10, g: 20, b: 30, a: 40 };
    canvas.draw_smooth_line_simple(at(1, 2), at(4, 2), c);
    assert_eq!(painted(&canvas), vec![(1, 2), (2, 2), (3, 2), (4, 2)]);
    for x in 1..5 {
        assert_eq!(canvas.get(x, 2), Ok(c));
    }
}

#[test]
fn smooth_vertical_line_covers_its_column_in_full() {
    let mut canvas = Canvas::new(4, 5);
    let c = Color { r: 10, g: 20, b: 30, a: 40 };
    canvas.draw_smooth_line_simple(at(3, 4), at(3, 0), c);
    assert_eq!(painted(&canvas), vec![(3, 0), (3, 1), (3, 2), (3, 3), (3, 4)]);
    for y in 0..5 {
        assert_eq!(canvas.get(3, y), Ok(c));
    }
}

#[test]
fn smooth_line_between_rows_shares_its_colour() {
    let mut canvas = Canvas::new(3, 3);
    // a horizontal line a quarter of a pixel below row 1
    canvas.draw_smooth_line_simple(Point::new(0, 320), Point::new(512, 320), Color::black());
    let near = Color { r: 64, g: 64, b: 64, a: 255 };
    let far = Color { r: 191, g: 191, b: 191, a: 255 };
    assert_eq!(painted(&canvas), vec![(0, 1), (1, 1), (2, 1), (0, 2), (1, 2), (2, 2)]);
    for x in 0..3 {
        assert_eq!(canvas.get(x, 1), Ok(near));
        assert_eq!(canvas.get(x, 2), Ok(far));
    }
}

#[test]
fn smooth_sloped_line() {
    let mut canvas = Canvas::new(6, 6);
    canvas.draw_smooth_line_simple(at(0, 0), at(4, 2), Color::black());
    let half = Color { r: 128, g: 128, b: 128, a: 255 };
    let w = Color::white();
    let k = Color::black();
    assert_eq!(
        snapshot(&canvas),
        vec![
            half, w, w, w, w, w, //
            half, k, half, w, w, w, //
            w, w, half, k, half, w, //
            w, w, w, w, half, w, //
            w, w, w, w, w, w, //
            w, w, w, w, w, w,
        ]
    );
}

#[test]
fn smooth_steep_line_swaps_the_axes() {
    let mut canvas = Canvas::new(6, 6);
    canvas.draw_smooth_line_simple(at(2, 4), at(0, 0), Color::black());
    let half = Color { r: 128, g: 128, b: 128, a: 255 };
    let w = Color::white();
    let k = Color::black();
    assert_eq!(
        snapshot(&canvas),
        vec![
            half, half, w, w, w, w, //
            w, k, w, w, w, w, //
            w, half, half, w, w, w, //
            w, w, k, w, w, w, //
            w, w, half, half, w, w, //
            w, w, w, w, w, w,
        ]
    );
}

#[test]
fn smooth_line_blends_with_the_background() {
    let mut canvas = Canvas::new(3, 3);
    canvas.clear(Color { r: 100, g: 0, b: 200, a: 50 });
    canvas.draw_smooth_line_simple(Point::new(0, 64), Point::new(512, 64), Color { r: 0, g: 100, b: 0, a: 250 });
    // the line runs a quarter into row 0: coverage 3/4 there, 1/4 in row 1
    assert_eq!(canvas.get(1, 0), Ok(Color { r: 25, g: 75, b: 50, a: 200 }));
    assert_eq!(canvas.get(1, 1), Ok(Color { r: 75, g: 25, b: 150, a: 100 }));
    assert_eq!(canvas.get(1, 2), Ok(Color { r: 100, g: 0, b: 200, a: 50 }));
}

#[test]
fn smooth_line_passes_over_pixels_outside() {
    let mut canvas = Canvas::new(3, 1);
    canvas.draw_smooth_line_simple(Point::new(0, 128), Point::new(512, 128), Color::black());
    let half = Color { r: 128, g: 128, b: 128, a: 255 };
    assert_eq!(snapshot(&canvas), vec![half; 3]);
}

#[test]
fn smooth_line_without_length_or_with_an_end_outside_draws_nothing() {
    let mut canvas = Canvas::new(4, 4);
    canvas.draw_smooth_line_simple(at(1, 1), at(1, 1), red());
    canvas.draw_smooth_line_simple(at(1, 1), at(4, 1), red());
    canvas.draw_smooth_line_simple(Point::new(-1, 0), at(2, 1), red());
    assert_eq!(painted(&canvas), Vec::new());
}

fn green() -> Color {
    Color::from_rgb(0, 255, 0)
}

fn blue() -> Color {
    Color::from_rgb(0, 0, 255)
}

#[test]
fn triangle_corners_keep_their_colours() {
    let mut canvas = Canvas::new(6, 6);
    canvas.draw_gradient_triangle(at(0, 0), at(4, 0), at(0, 4), red(), green(), blue());
    assert_eq!(canvas.get(0, 0), Ok(red()));
    assert_eq!(canvas.get(4, 0), Ok(green()));
    assert_eq!(canvas.get(0, 4), Ok(blue()));
}

#[test]
fn triangle_interpolates_inside_and_on_its_edges() {
    let mut canvas = Canvas::new(6, 6);
    canvas.draw_gradient_triangle(at(0, 0), at(4, 0), at(0, 4), red(), green(), blue());
    // weights 1/2, 1/4, 1/4
    assert_eq!(canvas.get(1, 1), Ok(Color { r: 128, g: 64, b: 64, a: 255 }));
    // on the edge opposite the first corner: weights 0, 1/2, 1/2
    assert_eq!(canvas.get(2, 2), Ok(Color { r: 0, g: 128, b: 128, a: 255 }));
    // on the edge between the first two corners: weights 3/4, 1/4, 0
    assert_eq!(canvas.get(1, 0), Ok(Color { r: 191, g: 64, b: 0, a: 255 }));
    assert_eq!(
        painted(&canvas),
        vec![
            (0, 0), (1, 0), (2, 0), (3, 0), (4, 0), //
            (0, 1), (1, 1), (2, 1), (3, 1), //
            (0, 2), (1, 2), (2, 2), //
            (0, 3), (1, 3), //
            (0, 4),
        ]
    );
}

#[test]
fn triangle_leaves_the_outside_alone() {
    let mut canvas = Canvas::new(6, 6);
    canvas.clear(Color { r: 1, g: 2, b: 3, a: 4 });
    canvas.draw_gradient_triangle(at(1, 1), at(4, 1), at(1, 4), red(), green(), blue());
    let old = Ok(Color { r: 1, g: 2, b: 3, a: 4 });
    assert_eq!(canvas.get(0, 0), old);
    assert_eq!(canvas.get(3, 3), old);
    assert_eq!(canvas.get(4, 4), old);
    assert_eq!(canvas.get(5, 1), old);
    assert_eq!(canvas.get(1, 5), old);
    assert_eq!(canvas.get(0, 2), old);
    assert_eq!(canvas.get(1, 1), Ok(red()));
}

#[test]
fn triangle_in_the_other_winding_order() {
    let mut one = Canvas::new(6, 6);
    let mut other = Canvas::new(6, 6);
    one.draw_gradient_triangle(at(0, 0), at(4, 0), at(0, 4), red(), green(), blue());
    other.draw_gradient_triangle(at(0, 0), at(0, 4), at(4, 0), red(), blue(), green());
    assert_eq!(snapshot(&one), snapshot(&other));
}

#[test]
fn triangle_is_clipped_to_the_canvas() {
    let mut canvas = Canvas::new(3, 3);
    canvas.draw_gradient_triangle(at(-4, -4), at(12, -4), at(-4, 12), red(), red(), red());
    assert_eq!(snapshot(&canvas), vec![red(); 9]);
    let mut canvas = Canvas::new(3, 3);
    canvas.draw_gradient_triangle(at(5, 5), at(9, 5), at(5, 9), red(), red(), red());
    canvas.draw_gradient_triangle(at(-9, -9), at(-5, -9), at(-9, -5), red(), red(), red());
    assert_eq!(painted(&canvas), Vec::new());
}

#[test]
fn triangle_with_fractional_corners() {
    let mut canvas = Canvas::new(4, 4);
    // corners at (0.5, 0.5), (2.5, 0.5), (0.5, 2.5): only (1, 1), (2, 1) and (1, 2) lie inside
    canvas.draw_gradient_triangle(
        Point::new(128, 128),
        Point::new(640, 128),
        Point::new(128, 640),
        red(),
        red(),
        red(),
    );
    assert_eq!(painted(&canvas), vec![(1, 1), (2, 1), (1, 2)]);
}

#[test]
fn triangle_without_area_draws_nothing() {
    let mut canvas = Canvas::new(6, 6);
    canvas.draw_gradient_triangle(at(0, 0), at(2, 2), at(4, 4), red(), green(), blue());
    canvas.draw_gradient_triangle(at(1, 1), at(1, 1), at(3, 2), red(), green(), blue());
    canvas.draw_gradient_triangle(at(2, 2), at(2, 2), at(2, 2), red(), green(), blue());
    assert_eq!(painted(&canvas), Vec::new());
}
