use three_two_d_basics::{draw_circle, draw_square, Object};

fn painted(buffer: &[u32], width: usize, color: u32) -> Vec<(usize, usize)> {
    let mut cells = Vec::new();
    for (i, &c) in buffer.iter().enumerate() {
        if c == color {
            cells.push((i % width, i / width));
        }
    }
    cells
}

#[test]
fn disc_of_radius_zero_is_the_centre() {
    let mut buffer = vec![0u32; 25];
    draw_circle(&mut buffer, 2, 2, 5, 5, 0, 1);
    assert_eq!(painted(&buffer, 5, 1), vec![(2, 2)]);
}

#[test]
fn disc_of_radius_one_is_a_plus_of_five() {
    let mut buffer = vec![0u32; 25];
    draw_circle(&mut buffer, 2, 2, 5, 5, 1, 1);
    assert_eq!(painted(&buffer, 5, 1), vec![(2, 1), (1, 2), (2, 2), (3, 2), (2, 3)]);
}

#[test]
fn disc_of_radius_two_has_thirteen_cells() {
    let mut buffer = vec![0u32; 121];
    draw_circle(&mut buffer, 5, 5, 11, 11, 2, 1);
    assert_eq!(
        painted(&buffer, 11, 1),
        vec![
            (5, 3),
            (4, 4),
            (5, 4),
            (6, 4),
            (3, 5),
            (4, 5),
            (5, 5),
            (6, 5),
            (7, 5),
            (4, 6),
            (5, 6),
            (6, 6),
            (5, 7)
        ]
    );
}

#[test]
fn disc_of_radius_three_has_twenty_nine_cells() {
    let mut buffer = vec![0u32; 121];
    draw_circle(&mut buffer, 5, 5, 11, 11, 3, 1);
    let cells = painted(&buffer, 11, 1);
    assert_eq!(cells.len(), 29);
    for (x, y) in cells {
        let dx = x as i64 - 5;
        let dy = y as i64 - 5;
        assert!(dx * dx + dy * dy <= 9);
    }
    assert_eq!(buffer[5 * 11 + 8], 1);
    assert_eq!(buffer[7 * 11 + 7], 1);
    assert_eq!(buffer[8 * 11 + 8], 0);
    assert_eq!(buffer[8 * 11 + 6], 0);
}

#[test]
fn disc_is_clipped_at_the_corner() {
    let mut buffer = vec![0u32; 16];
    draw_circle(&mut buffer, 0, 0, 4, 4, 1, 1);
    assert_eq!(painted(&buffer, 4, 1), vec![(0, 0), (1, 0), (0, 1)]);
}

#[test]
fn disc_is_clipped_at_the_right_edge_and_does_not_wrap() {
    let mut buffer = vec![0u32; 16];
    draw_circle(&mut buffer, 3, 1, 4, 4, 1, 1);
    assert_eq!(painted(&buffer, 4, 1), vec![(3, 0), (2, 1), (3, 1), (3, 2)]);
}

#[test]
fn disc_far_outside_changes_nothing() {
    let mut buffer = vec![0u32; 16];
    draw_circle(&mut buffer, 4_000_000_000, 9, 4, 4, 3, 1);
    draw_circle(&mut buffer, usize::MAX, usize::MAX, 4, 4, 2, 1);
    assert_eq!(buffer, vec![0u32; 16]);
}

#[test]
fn disc_does_not_write_past_the_frame_into_a_longer_buffer() {
    let mut buffer = vec![0u32; 40];
    draw_circle(&mut buffer, 1, 2, 4, 3, 2, 1);
    for (i, &c) in buffer.iter().enumerate() {
        if c == 1 {
            assert!(i < 12);
        }
    }
    assert_eq!(
        painted(&buffer, 4, 1),
        vec![(1, 0), (0, 1), (1, 1), (2, 1), (0, 2), (1, 2), (2, 2), (3, 2)]
    );
}

#[test]
fn square_of_radius_zero_is_the_centre() {
    let mut buffer = vec![0u32; 25];
    draw_square(&mut buffer, 3, 1, 5, 5, 0, 1);
    assert_eq!(painted(&buffer, 5, 1), vec![(3, 1)]);
}

#[test]
fn square_of_radius_one_has_nine_cells() {
    let mut buffer = vec![0u32; 25];
    draw_square(&mut buffer, 2, 2, 5, 5, 1, 1);
    assert_eq!(
        painted(&buffer, 5, 1),
        vec![(1, 1), (2, 1), (3, 1), (1, 2), (2, 2), (3, 2), (1, 3), (2, 3), (3, 3)]
    );
}

#[test]
fn square_of_radius_two_has_side_five() {
    let mut buffer = vec![0u32; 49];
    draw_square(&mut buffer, 3, 3, 7, 7, 2, 1);
    let cells = painted(&buffer, 7, 1);
    assert_eq!(cells.len(), 25);
    assert_eq!(cells[0], (1, 1));
    assert_eq!(cells[24], (5, 5));
}

#[test]
fn square_is_clipped_at_the_corner() {
    let mut buffer = vec![0u32; 16];
    draw_square(&mut buffer, 3, 3, 4, 4, 1, 1);
    assert_eq!(painted(&buffer, 4, 1), vec![(2, 2), (3, 2), (2, 3), (3, 3)]);
}

#[test]
fn square_around_a_far_centre_reaches_back_into_the_frame() {
    let mut buffer = vec![0u32; 16];
    draw_square(&mut buffer, 5, 5, 4, 4, 2, 1);
    assert_eq!(painted(&buffer, 4, 1), vec![(3, 3)]);
}

#[test]
fn square_does_not_write_past_a_buffer_shorter_than_the_frame() {
    let mut buffer = vec![0u32; 6];
    draw_square(&mut buffer, 1, 1, 4, 4, 1, 1);
    assert_eq!(painted(&buffer, 4, 1), vec![(0, 0), (1, 0), (2, 0), (0, 1), (1, 1)]);
}

#[test]
fn marker_point_draws_one_pixel() {
    let mut buffer = vec![0u32; 16];
    Object::Point.draw(&mut buffer, 2, 3, 4, 4, 5);
    assert_eq!(painted(&buffer, 4, 5), vec![(2, 3)]);
}

#[test]
fn marker_point_outside_the_frame_is_passed_over() {
    let mut buffer = vec![0u32; 32];
    Object::Point.draw(&mut buffer, 4, 1, 4, 4, 5);
    Object::Point.draw(&mut buffer, 1, 4, 4, 4, 5);
    Object::Point.draw(&mut buffer, usize::MAX, usize::MAX, 4, 4, 5);
    assert_eq!(buffer, vec![0u32; 32]);
}

#[test]
fn marker_circle_draws_a_disc() {
    let mut with_marker = vec![0u32; 49];
    let mut direct = vec![0u32; 49];
    Object::Circle { radius: 2 }.draw(&mut with_marker, 3, 3, 7, 7, 5);
    draw_circle(&mut direct, 3, 3, 7, 7, 2, 5);
    assert_eq!(with_marker, direct);
    assert_eq!(painted(&with_marker, 7, 5).len(), 13);
}

#[test]
fn marker_square_draws_a_square() {
    let mut with_marker = vec![0u32; 49];
    let mut direct = vec![0u32; 49];
    Object::Square { radius: 2 }.draw(&mut with_marker, 3, 3, 7, 7, 5);
    draw_square(&mut direct, 3, 3, 7, 7, 2, 5);
    assert_eq!(with_marker, direct);
    assert_eq!(painted(&with_marker, 7, 5).len(), 25);
}
