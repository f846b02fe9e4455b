use bresenham::Bresenham;
use three_two_d_basics::segment::draw_segment;
use three_two_d_basics::{bresenham_line, draw_circle, draw_line, GeometryDrawer, PixelOutOfBounds};

fn painted(buffer: &[u32], width: usize, color: u32) -> Vec<(usize, usize)> {
    let mut cells = Vec::new();
    for (i, &c) in buffer.iter().enumerate() {
        if c == color {
            cells.push((i % width, i / width));
        }
    }
    cells
}

fn sorted(mut cells: Vec<(usize, usize)>) -> Vec<(usize, usize)> {
    cells.sort_by_key(|&(x, y)| (y, x));
    cells.dedup();
    cells
}

fn toward(from: i64, to: i64, steps: i64) -> i64 {
    if from < to {
        from + steps
    } else {
        from - steps
    }
}

#[test]
fn every_line_on_a_small_grid_is_the_rounded_interpolation() {
    let side: usize = 7;
    for x0 in 0..side {
        for y0 in 0..side {
            for x1 in 0..side {
                for y1 in 0..side {
                    let mut buffer = vec![0u32; side * side];
                    bresenham_line(&mut buffer, x0, y0, x1, y1, side, side, 1);
                    let a = (x1 as i64 - x0 as i64).abs();
                    let b = (y1 as i64 - y0 as i64).abs();
                    let n = a.max(b);
                    let mut expected = Vec::new();
                    for k in 0..=n {
                        let (i, j) = if n == 0 {
                            (0, 0)
                        } else {
                            ((2 * a * k + n) / (2 * n), (2 * b * k + n) / (2 * n))
                        };
                        expected.push((
                            toward(x0 as i64, x1 as i64, i) as usize,
                            toward(y0 as i64, y1 as i64, j) as usize,
                        ));
                    }
                    assert_eq!(expected.len() as i64, n + 1);
                    assert_eq!(painted(&buffer, side, 1), sorted(expected));
                }
            }
        }
    }
}

#[test]
fn every_reporting_line_on_a_small_grid_is_what_the_tracer_yields_and_then_the_end() {
    let side: usize = 6;
    for x0 in 0..side {
        for y0 in 0..side {
            for x1 in 0..side {
                for y1 in 0..side {
                    let mut buffer = vec![0u32; side * side];
                    assert_eq!(draw_line(&mut buffer, x0, y0, x1, y1, 1, side), Ok(()));
                    let mut expected: Vec<(usize, usize)> =
                        Bresenham::new((x0 as isize, y0 as isize), (x1 as isize, y1 as isize))
                            .map(|(x, y)| (x as usize, y as usize))
                            .collect();
                    let steps = (x1 as i64 - x0 as i64).abs().max((y1 as i64 - y0 as i64).abs());
                    assert_eq!(expected.len() as i64, steps);
                    assert!(!expected.contains(&(x1, y1)));
                    if steps > 0 {
                        assert_eq!(expected[0], (x0, y0));
                    }
                    expected.push((x1, y1));
                    assert_eq!(painted(&buffer, side, 1), sorted(expected));
                }
            }
        }
    }
}

#[test]
fn every_level_and_upright_reporting_line_is_the_line_of_the_error_term_tracer() {
    let side: usize = 6;
    for a in 0..side {
        for b in 0..side {
            for c in 0..side {
                let mut reporting = vec![0u32; side * side];
                let mut clipped = vec![0u32; side * side];
                assert_eq!(draw_line(&mut reporting, a, c, b, c, 1, side), Ok(()));
                bresenham_line(&mut clipped, a, c, b, c, side, side, 1);
                assert_eq!(reporting, clipped);
                let mut reporting = vec![0u32; side * side];
                let mut clipped = vec![0u32; side * side];
                assert_eq!(draw_line(&mut reporting, c, a, c, b, 1, side), Ok(()));
                bresenham_line(&mut clipped, c, a, c, b, side, side, 1);
                assert_eq!(reporting, clipped);
            }
        }
    }
}

#[test]
fn every_small_disc_is_the_set_of_cells_within_the_radius() {
    let side: usize = 15;
    for radius in 0..7usize {
        let mut buffer = vec![0u32; side * side];
        draw_circle(&mut buffer, 7, 7, side, side, radius, 1);
        let mut expected = Vec::new();
        for y in 0..side {
            for x in 0..side {
                let dx = x as i64 - 7;
                let dy = y as i64 - 7;
                if dx * dx + dy * dy <= (radius * radius) as i64 {
                    expected.push((x, y));
                }
            }
        }
        assert_eq!(painted(&buffer, side, 1), expected);
    }
}

#[test]
fn every_small_outline_follows_the_decision_value() {
    let side: usize = 81;
    let drawer = GeometryDrawer::new(side);
    for radius in 1..40usize {
        let mut buffer = vec![0u32; side * side];
        assert_eq!(drawer.draw_circle(&mut buffer, 40, 40, radius, 1), Ok(()));
        let mut expected = Vec::new();
        let r = radius as i64;
        let (mut x, mut y) = (0i64, r);
        while y >= x {
            let excess = 2 * (x * x + y * y - r * r) + 8 * x - 6 * y + 4 * r + 3;
            x += 1;
            if excess > 0 {
                y -= 1;
            }
            for (px, py) in [
                (40 + x, 40 + y),
                (40 - x, 40 + y),
                (40 + x, 40 - y),
                (40 - x, 40 - y),
                (40 + y, 40 + x),
                (40 - y, 40 + x),
                (40 + y, 40 - x),
                (40 - y, 40 - x),
            ] {
                expected.push((px as usize, py as usize));
            }
        }
        assert_eq!(painted(&buffer, side, 1), sorted(expected));
    }
}

#[test]
fn every_traced_segment_between_signed_ends_has_the_known_shape() {
    for x0 in -4isize..5 {
        for y0 in -4isize..5 {
            for x1 in -4isize..5 {
                for y1 in -4isize..5 {
                    let traced: Vec<(isize, isize)> = Bresenham::new((x0, y0), (x1, y1)).collect();
                    let steps = (x1 - x0).abs().max((y1 - y0).abs());
                    assert_eq!(traced.len() as isize, steps);
                    assert!(!traced.contains(&(x1, y1)));
                    for (k, &(x, y)) in traced.iter().enumerate() {
                        let k = k as isize;
                        if k == 0 {
                            assert_eq!((x, y), (x0, y0));
                        }
                        if y0 == y1 {
                            assert_eq!((x, y), (if x0 < x1 { x0 + k } else { x0 - k }, y0));
                        }
                        if x0 == x1 {
                            assert_eq!((x, y), (x0, if y0 < y1 { y0 + k } else { y0 - k }));
                        }
                    }
                    let side = 5usize;
                    let mut buffer = vec![0u32; side * side];
                    let report = draw_segment(&mut buffer, x0, y0, x1, y1, 1, side);
                    let first_outside = traced
                        .iter()
                        .position(|&(x, y)| x < 0 || y < 0 || x >= side as isize || y >= side as isize);
                    let drawn = first_outside.unwrap_or(traced.len());
                    let expected_report = match first_outside {
                        None => Ok(()),
                        Some(at) => Err(PixelOutOfBounds {
                            x: traced[at].0 as i128,
                            y: traced[at].1 as i128,
                        }),
                    };
                    assert_eq!(report, expected_report);
                    let expected: Vec<(usize, usize)> =
                        traced[..drawn].iter().map(|&(x, y)| (x as usize, y as usize)).collect();
                    assert_eq!(painted(&buffer, side, 1), sorted(expected));
                }
            }
        }
    }
}
