use raster_canvas::{Canvas, Color, Connectivity, Image, Point};

fn at(x: i32, y: i32) -> Point {
    Point::from_pixel(x, y).unwrap()
}

struct Noise(u64);

impl Noise {
    fn next(&mut self, below: u64) -> u64 {
        self.0 = self.0.wrapping_mul(6364136223846793005).wrapping_add(1442695040888963407);
        (self.0 >> 33) % below
    }
}

fn noisy_canvas(noise: &mut Noise, w: usize, h: usize, colours: u64) -> (Canvas, Vec<Vec<u64>>) {
    let mut canvas = Canvas::new(w, h);
    let mut grid = vec![vec![0u64; w]; h];
    for y in 0..h {
        for x in 0..w {
            let c = noise.next(colours);
            grid[y][x] = c;
            canvas.set(x, y, Color::from_rgb(c as u8, 0, 0)).unwrap();
        }
    }
    (canvas, grid)
}

/// The region of the seed, found by looking at one neighbour after another.
fn region(grid: &Vec<Vec<u64>>, sx: usize, sy: usize, diagonals: bool) -> Vec<Vec<bool>> {
    let h = grid.len() as i64;
    let w = grid[0].len() as i64;
    let mut inside = vec![vec![false; w as usize]; h as usize];
    let mut stack = vec![(sx as i64, sy as i64)];
    inside[sy][sx] = true;
    while let Some((x, y)) = stack.pop() {
        for dy in -1i64..=1 {
            for dx in -1i64..=1 {
                if (dx == 0 && dy == 0) || (!diagonals && dx != 0 && dy != 0) {
                    continue;
                }
                let (nx, ny) = (x + dx, y + dy);
                if nx < 0 || ny < 0 || nx >= w || ny >= h {
                    continue;
                }
                let (ux, uy) = (nx as usize, ny as usize);
                if !inside[uy][ux] && grid[uy][ux] == grid[sy][sx] {
                    inside[uy][ux] = true;
                    stack.push((nx, ny));
                }
            }
        }
    }
    inside
}

#[test]
fn fill_paints_exactly_the_region() {
    let mut noise = Noise(7);
    for round in 0..60 {
        let w = 1 + noise.next(9) as usize;
        let h = 1 + noise.next(9) as usize;
        let (mut canvas, grid) = noisy_canvas(&mut noise, w, h, 2 + round % 2);
        let sx = noise.next(w as u64) as usize;
        let sy = noise.next(h as u64) as usize;
        let diagonals = round % 2 == 0;
        let connectivity = if diagonals { Connectivity::EIGHT } else { Connectivity::FOUR };
        let paint = Color::from_rgb(0, 200, 0);
        canvas.fill_with_color(at(sx as i32, sy as i32), paint, connectivity);
        let inside = region(&grid, sx, sy, diagonals);
        for y in 0..h {
            for x in 0..w {
                let expected = if inside[y][x] { paint } else { Color::from_rgb(grid[y][x] as u8, 0, 0) };
                assert_eq!(canvas.get(x, y), Ok(expected), "round {round}, pixel ({x}, {y})");
            }
        }
    }
}

#[test]
fn pattern_fill_paints_exactly_the_region() {
    let mut noise = Noise(11);
    for round in 0..60 {
        let w = 1 + noise.next(9) as usize;
        let h = 1 + noise.next(9) as usize;
        let (mut canvas, grid) = noisy_canvas(&mut noise, w, h, 2);
        let iw = 1 + noise.next(3) as usize;
        let ih = 1 + noise.next(3) as usize;
        // the image may hold the colours of the canvas
        let cells: Vec<Color> = (0..iw * ih).map(|_| Color::from_rgb(noise.next(4) as u8, 0, 0)).collect();
        let image = Image::new(iw, ih, cells.clone()).unwrap();
        let sx = noise.next(w as u64) as usize;
        let sy = noise.next(h as u64) as usize;
        let diagonals = round % 2 == 1;
        let connectivity = if diagonals { Connectivity::EIGHT } else { Connectivity::FOUR };
        canvas.fill_with_img(at(sx as i32, sy as i32), &image, connectivity);
        let inside = region(&grid, sx, sy, diagonals);
        for y in 0..h {
            for x in 0..w {
                let ix = (x as i64 - sx as i64).rem_euclid(iw as i64) as usize;
                let iy = (y as i64 - sy as i64).rem_euclid(ih as i64) as usize;
                let expected = if inside[y][x] { cells[iy * iw + ix] } else { Color::from_rgb(grid[y][x] as u8, 0, 0) };
                assert_eq!(canvas.get(x, y), Ok(expected), "round {round}, pixel ({x}, {y})");
            }
        }
    }
}

/// The pixels of a segment, by the error term.
fn segment(mut x0: i32, mut y0: i32, x1: i32, y1: i32) -> Vec<(usize, usize)> {
    let dx = (x1 - x0).abs();
    let sx = if x0 < x1 { 1 } else { -1 };
    let dy = -(y1 - y0).abs();
    let sy = if y0 < y1 { 1 } else { -1 };
    let mut error = dx + dy;
    let mut points = Vec::new();
    loop {
        points.push((x0 as usize, y0 as usize));
        let e2 = 2 * error;
        if e2 >= dy {
            if x0 == x1 {
                break;
            }
            error += dy;
            x0 += sx;
        }
        if e2 <= dx {
            if y0 == y1 {
                break;
            }
            error += dx;
            y0 += sy;
        }
    }
    points
}

#[test]
fn sharp_lines_between_all_pairs_of_pixels() {
    let n = 6;
    for x0 in 0..n {
        for y0 in 0..n {
            for x1 in 0..n {
                for y1 in 0..n {
                    let mut canvas = Canvas::new(n as usize, n as usize);
                    canvas.draw_sharp_line(at(x0, y0), at(x1, y1), Color::black());
                    let points = segment(x0, y0, x1, y1);
                    assert_eq!(points[0], (x0 as usize, y0 as usize));
                    assert_eq!(points[points.len() - 1], (x1 as usize, y1 as usize));
                    for y in 0..n as usize {
                        for x in 0..n as usize {
                            let expected = if points.contains(&(x, y)) { Color::black() } else { Color::white() };
                            assert_eq!(canvas.get(x, y), Ok(expected));
                        }
                    }
                }
            }
        }
    }
}

#[test]
fn traced_contours_stay_in_the_region_and_move_between_neighbours() {
    let mut noise = Noise(23);
    for round in 0..80 {
        let w = 1 + noise.next(8) as usize;
        let h = 1 + noise.next(8) as usize;
        let (canvas, grid) = noisy_canvas(&mut noise, w, h, 2);
        let sx = noise.next(w as u64) as usize;
        let sy = noise.next(h as u64) as usize;
        let contour = canvas.trace_boundary(at(sx as i32, sy as i32));
        let inside = region(&grid, sx, sy, true);
        assert_eq!(contour[0], (sx, sy), "round {round}");
        assert!(contour.len() <= w * h + 1, "round {round}");
        for i in 0..contour.len() {
            let (x, y) = contour[i];
            assert!(inside[y][x], "round {round}");
            if i > 0 {
                let (px, py) = contour[i - 1];
                assert!((px, py) != (x, y) && px.abs_diff(x) <= 1 && py.abs_diff(y) <= 1, "round {round}");
                // the seed comes again only to close the contour
                assert!((x, y) != (sx, sy) || i == contour.len() - 1, "round {round}");
            }
        }
    }
}

#[test]
fn smooth_line_coverages_add_up() {
    // over white, a black line darkens each column of its longer axis by one full pixel in all
    let mut canvas = Canvas::new(12, 12);
    canvas.draw_smooth_line_simple(Point::new(300, 700), Point::new(2500, 1900), Color::black());
    for x in 1..=9 {
        let mut darkness = 0u32;
        for y in 0..12 {
            darkness += 255 - canvas.get(x, y).unwrap().r as u32;
        }
        assert!((254..=256).contains(&darkness), "column {x}: {darkness}");
    }
    for y in 0..12 {
        assert_eq!(canvas.get(0, y), Ok(Color::white()));
        assert_eq!(canvas.get(10, y), Ok(Color::white()));
    }
}
