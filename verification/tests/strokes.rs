use three_two_d_basics::frame::put_pixel;
use three_two_d_basics::segment::draw_segment;
use three_two_d_basics::trace::draw_points;
use three_two_d_basics::PixelOutOfBounds;

fn painted(buffer: &[u32], width: usize, color: u32) -> Vec<(usize, usize)> {
    let mut cells = Vec::new();
    for (i, &c) in buffer.iter().enumerate() {
        if c == color {
            cells.push((i % width, i / width));
        }
    }
    cells
}

#[test]
fn guarded_write_inside_the_frame() {
    let mut buffer = vec![0u32; 12];
    assert!(put_pixel(&mut buffer, 3, 2, 4, 3, 5));
    assert_eq!(painted(&buffer, 4, 5), vec![(3, 2)]);
}

#[test]
fn guarded_write_refuses_negative_coordinates() {
    let mut buffer = vec![0u32; 12];
    assert!(!put_pixel(&mut buffer, -1, 1, 4, 3, 5));
    assert!(!put_pixel(&mut buffer, 1, -1, 4, 3, 5));
    assert!(!put_pixel(&mut buffer, i128::MIN, i128::MIN, 4, 3, 5));
    assert_eq!(buffer, vec![0u32; 12]);
}

#[test]
fn guarded_write_refuses_what_lies_right_of_or_below_the_frame() {
    let mut buffer = vec![0u32; 20];
    assert!(!put_pixel(&mut buffer, 4, 0, 4, 3, 5));
    assert!(!put_pixel(&mut buffer, 0, 3, 4, 3, 5));
    assert!(!put_pixel(&mut buffer, i128::MAX, i128::MAX, 4, 3, 5));
    assert_eq!(buffer, vec![0u32; 20]);
}

#[test]
fn guarded_write_refuses_what_lies_past_the_buffer() {
    let mut buffer = vec![0u32; 6];
    assert!(put_pixel(&mut buffer, 1, 1, 4, 3, 5));
    assert!(!put_pixel(&mut buffer, 2, 1, 4, 3, 5));
    assert!(!put_pixel(&mut buffer, 0, 2, 4, 3, 5));
    assert_eq!(painted(&buffer, 4, 5), vec![(1, 1)]);
}

#[test]
fn guarded_write_with_the_largest_frame() {
    let mut buffer = vec![0u32; 6];
    assert!(!put_pixel(
        &mut buffer,
        usize::MAX as i128 - 1,
        usize::MAX as i128 - 1,
        usize::MAX,
        usize::MAX,
        5
    ));
    assert!(put_pixel(&mut buffer, 5, 0, usize::MAX, usize::MAX, 5));
    assert_eq!(buffer, vec![0, 0, 0, 0, 0, 5]);
}

#[test]
fn points_are_drawn_in_order() {
    let mut buffer = vec![0u32; 9];
    assert_eq!(draw_points(&mut buffer, &[(0, 0), (2, 1), (1, 2), (0, 0)], 4, 3), Ok(()));
    assert_eq!(painted(&buffer, 3, 4), vec![(0, 0), (2, 1), (1, 2)]);
}

#[test]
fn points_after_the_first_outside_are_not_drawn() {
    let mut buffer = vec![0u32; 9];
    assert_eq!(
        draw_points(&mut buffer, &[(0, 0), (3, 0), (1, 1), (-4, 2)], 4, 3),
        Err(PixelOutOfBounds { x: 3, y: 0 })
    );
    assert_eq!(painted(&buffer, 3, 4), vec![(0, 0)]);
}

#[test]
fn a_negative_point_is_reported_as_it_is() {
    let mut buffer = vec![0u32; 9];
    assert_eq!(
        draw_points(&mut buffer, &[(-4, 2), (1, 1)], 4, 3),
        Err(PixelOutOfBounds { x: -4, y: 2 })
    );
    assert_eq!(
        draw_points(&mut buffer, &[(1, -1)], 4, 3),
        Err(PixelOutOfBounds { x: 1, y: -1 })
    );
    assert_eq!(buffer, vec![0u32; 9]);
}

#[test]
fn no_points_succeed_on_any_buffer() {
    let mut buffer: Vec<u32> = Vec::new();
    assert_eq!(draw_points(&mut buffer, &[], 4, 0), Ok(()));
    assert_eq!(draw_points(&mut buffer, &[(0, 0)], 4, 1), Err(PixelOutOfBounds { x: 0, y: 0 }));
}

#[test]
fn signed_segment_inside_the_buffer() {
    let mut buffer = vec![0u32; 16];
    assert_eq!(draw_segment(&mut buffer, 3, 3, 0, 0, 1, 4), Ok(()));
    assert_eq!(painted(&buffer, 4, 1), vec![(1, 1), (2, 2), (3, 3)]);
}

#[test]
fn signed_segment_from_a_negative_start_is_reported() {
    let mut buffer = vec![0u32; 16];
    assert_eq!(
        draw_segment(&mut buffer, -2, 1, 3, 1, 1, 4),
        Err(PixelOutOfBounds { x: -2, y: 1 })
    );
    assert_eq!(buffer, vec![0u32; 16]);
}

#[test]
fn signed_segment_into_negative_rows_is_reported_where_it_leaves() {
    let mut buffer = vec![0u32; 16];
    assert_eq!(
        draw_segment(&mut buffer, 1, 2, 1, -3, 1, 4),
        Err(PixelOutOfBounds { x: 1, y: -1 })
    );
    assert_eq!(painted(&buffer, 4, 1), vec![(1, 0), (1, 1), (1, 2)]);
}

#[test]
fn signed_segment_between_the_widest_ends_stops_early() {
    let mut buffer = vec![0u32; 16];
    assert_eq!(
        draw_segment(&mut buffer, 0, 0, isize::MAX, isize::MAX, 1, 4),
        Err(PixelOutOfBounds { x: 4, y: 4 })
    );
    assert_eq!(painted(&buffer, 4, 1), vec![(0, 0), (1, 1), (2, 2), (3, 3)]);
    assert_eq!(
        draw_segment(&mut buffer, -isize::MAX, 0, 0, 0, 2, 4),
        Err(PixelOutOfBounds { x: -(isize::MAX as i128), y: 0 })
    );
}
