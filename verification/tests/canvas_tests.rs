use raster_canvas::point::{pixel_ceil, pixel_floor, pixel_round};
use raster_canvas::{Canvas, CanvasError, Color, Connectivity, Image, Point};

fn red() -> Color {
    Color::from_rgb(255, 0, 0)
}

#[test]
fn new_canvas_is_white() {
    let canvas = Canvas::new(4, 3);
    assert_eq!(canvas.size(), [4, 3]);
    assert_eq!(canvas.width(), 4);
    assert_eq!(canvas.height(), 3);
    assert_eq!(canvas.area(), 12);
    for y in 0..3 {
        for x in 0..4 {
            assert_eq!(canvas.get(x, y), Ok(Color { r: 255, g: 255, b: 255, a: 255 }));
        }
    }
}

#[test]
fn default_canvas_is_empty() {
    let canvas = Canvas::default();
    assert_eq!(canvas.size(), [0, 0]);
    assert_eq!(canvas.get(0, 0), Err(CanvasError::OutOfBounds));
}

#[test]
fn get_and_set_check_bounds() {
    let mut canvas = Canvas::new(4, 3);
    assert_eq!(canvas.set(3, 2, red()), Ok(()));
    assert_eq!(canvas.get(3, 2), Ok(red()));
    assert_eq!(canvas.get(2, 2), Ok(Color::white()));
    assert_eq!(canvas.set(4, 0, red()), Err(CanvasError::OutOfBounds));
    assert_eq!(canvas.set(0, 3, red()), Err(CanvasError::OutOfBounds));
    assert_eq!(canvas.get(4, 0), Err(CanvasError::OutOfBounds));
    assert_eq!(canvas.get(0, 3), Err(CanvasError::OutOfBounds));
    assert!(canvas.check_bounds(0, 0));
    assert!(canvas.check_bounds(3, 2));
    assert!(!canvas.check_bounds(4, 2));
    assert!(!canvas.check_bounds(3, 3));
}

#[test]
fn pixels_are_stored_row_by_row() {
    let mut canvas = Canvas::new(3, 2);
    canvas.set(1, 0, red()).unwrap();
    canvas.set(2, 1, Color::black()).unwrap();
    let image = canvas.to_color_image();
    assert_eq!(image.width(), 3);
    assert_eq!(image.height(), 2);
    let w = Color::white();
    assert_eq!(image.pixels(), &vec![w, red(), w, w, w, Color::black()]);
    assert_eq!(image.get(1, 0), Some(red()));
    assert_eq!(image.get(3, 0), None);
}

#[test]
fn clear_sets_every_pixel() {
    let mut canvas = Canvas::new(3, 2);
    canvas.set(1, 1, Color::black()).unwrap();
    canvas.clear(red());
    assert_eq!(canvas.size(), [3, 2]);
    assert_eq!(canvas.to_color_image().pixels(), &vec![red(); 6]);
}

#[test]
fn locate_finds_the_pixel_under_a_point() {
    let canvas = Canvas::new(4, 3);
    assert_eq!(canvas.locate(Point::new(0, 0)), Some((0, 0)));
    assert_eq!(canvas.locate(Point::new(255, 511)), Some((0, 1)));
    assert_eq!(canvas.locate(Point::new(256 * 3 + 200, 256 * 2 + 255)), Some((3, 2)));
    assert_eq!(canvas.locate(Point::new(256 * 4, 0)), None);
    assert_eq!(canvas.locate(Point::new(0, 256 * 3)), None);
    assert_eq!(canvas.locate(Point::new(-1, 0)), None);
    assert_eq!(canvas.locate(Point::new(0, -1)), None);
}

#[test]
fn locate_nearest_rounds_to_the_nearest_pixel() {
    let canvas = Canvas::new(4, 3);
    assert_eq!(canvas.locate_nearest(Point::new(127, 128)), Some((0, 1)));
    assert_eq!(canvas.locate_nearest(Point::new(-127, 0)), Some((0, 0)));
    assert_eq!(canvas.locate_nearest(Point::new(-128, 0)), None);
    assert_eq!(canvas.locate_nearest(Point::new(256 * 3 + 127, 0)), Some((3, 0)));
    assert_eq!(canvas.locate_nearest(Point::new(256 * 3 + 128, 0)), None);
}

#[test]
fn image_needs_one_colour_per_pixel() {
    assert!(Image::new(2, 2, vec![red(); 4]).is_some());
    assert!(Image::new(2, 2, vec![red(); 3]).is_none());
    assert!(Image::new(usize::MAX, 2, vec![red(); 3]).is_none());
    assert!(Image::new(0, 5, Vec::new()).is_some());
    let empty = Image::empty();
    assert_eq!(empty.width(), 0);
    assert_eq!(empty.height(), 0);
}

#[test]
fn pixel_conversions_round_as_stated() {
    assert_eq!(pixel_floor(0), 0);
    assert_eq!(pixel_floor(255), 0);
    assert_eq!(pixel_floor(256), 1);
    assert_eq!(pixel_floor(-1), -1);
    assert_eq!(pixel_floor(-256), -1);
    assert_eq!(pixel_floor(-257), -2);
    assert_eq!(pixel_floor(i32::MIN), -8388608);
    assert_eq!(pixel_floor(i32::MAX), 8388607);
    assert_eq!(pixel_ceil(0), 0);
    assert_eq!(pixel_ceil(1), 1);
    assert_eq!(pixel_ceil(256), 1);
    assert_eq!(pixel_ceil(257), 2);
    assert_eq!(pixel_ceil(-1), 0);
    assert_eq!(pixel_ceil(-256), -1);
    assert_eq!(pixel_ceil(-257), -1);
    assert_eq!(pixel_ceil(i32::MAX), 8388608);
    assert_eq!(pixel_ceil(i32::MIN), -8388608);
    assert_eq!(pixel_round(127), 0);
    assert_eq!(pixel_round(128), 1);
    assert_eq!(pixel_round(-127), 0);
    assert_eq!(pixel_round(-128), -1);
    assert_eq!(pixel_round(384), 2);
    assert_eq!(pixel_round(-384), -2);
    assert_eq!(pixel_round(i32::MAX), 8388608);
    assert_eq!(pixel_round(i32::MIN), -8388608);
}

#[test]
fn points_from_pixels() {
    assert_eq!(Point::from_pixel(3, -2), Some(Point { x: 768, y: -512 }));
    assert_eq!(Point::from_pixel(8388607, 0), Some(Point { x: 2147483392, y: 0 }));
    assert_eq!(Point::from_pixel(8388608, 0), None);
    assert_eq!(Point::from_pixel(0, -8388608), Some(Point { x: 0, y: i32::MIN }));
    assert_eq!(Point::from_pixel(0, -8388609), None);
    assert_eq!(Point::new(5, 7), Point { x: 5, y: 7 });
}

#[test]
fn connectivity_names_and_default() {
    assert_eq!(Connectivity::FOUR.get_name(), "4-х связная");
    assert_eq!(Connectivity::EIGHT.get_name(), "8-ми связная");
    assert_eq!(Connectivity::default(), Connectivity::EIGHT);
}

#[test]
fn colours_from_channels() {
    assert_eq!(Color::from_rgba_premultiplied(1, 2, 3, 4), Color { r: 1, g: 2, b: 3, a: 4 });
    assert_eq!(Color::from_rgb(1, 2, 3), Color { r: 1, g: 2, b: 3, a: 255 });
    assert_eq!(Color::white(), Color { r: 255, g: 255, b: 255, a: 255 });
    assert_eq!(Color::black(), Color { r: 0, g: 0, b: 0, a: 255 });
}

#[test]
fn blend_rounds_to_nearest() {
    let bg = Color { r: 255, g: 0, b: 10, a: 255 };
    let fg = Color { r: 0, g: 255, b: 20, a: 0 };
    assert_eq!(bg.blend(fg, 0, 7), bg);
    assert_eq!(bg.blend(fg, 7, 7), fg);
    // 255 / 2 = 127.5 rounds up to 128; 10 * 0.5 + 20 * 0.5 = 15
    assert_eq!(bg.blend(fg, 1, 2), Color { r: 128, g: 128, b: 15, a: 128 });
    // 255 * 2 / 3 = 170; 255 / 3 = 85; 10 * 2 / 3 + 20 / 3 = 13.33
    assert_eq!(bg.blend(fg, 1, 3), Color { r: 170, g: 85, b: 13, a: 170 });
    // 10 * 0.75 + 20 * 0.25 = 12.5 rounds up to 13; 255 * 0.75 = 191.25
    assert_eq!(bg.blend(fg, 1, 4), Color { r: 191, g: 64, b: 13, a: 191 });
    assert_eq!(bg.blend(fg, u64::MAX, u64::MAX), fg);
}
