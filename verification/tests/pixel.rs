use three_two_d_basics::{draw_pixel, draw_point, PixelOutOfBounds};

#[test]
fn pixel_inside_is_written_at_row_major_index() {
    let mut buffer = vec![0u32; 12];
    assert_eq!(draw_pixel(&mut buffer, 2, 1, 0xff00ff, 4), Ok(()));
    let mut expected = vec![0u32; 12];
    expected[1 * 4 + 2] = 0xff00ff;
    assert_eq!(buffer, expected);
}

#[test]
fn pixel_in_last_cell_is_written() {
    let mut buffer = vec![7u32; 12];
    assert_eq!(draw_pixel(&mut buffer, 3, 2, 9, 4), Ok(()));
    assert_eq!(buffer[11], 9);
    assert_eq!(buffer.iter().filter(|&&c| c == 9).count(), 1);
}

#[test]
fn pixel_below_the_buffer_is_reported() {
    let mut buffer = vec![0u32; 12];
    assert_eq!(
        draw_pixel(&mut buffer, 0, 3, 1, 4),
        Err(PixelOutOfBounds { x: 0, y: 3 })
    );
    assert_eq!(buffer, vec![0u32; 12]);
}

#[test]
fn pixel_right_of_the_row_is_reported_and_does_not_wrap() {
    let mut buffer = vec![0u32; 12];
    assert_eq!(
        draw_pixel(&mut buffer, 4, 0, 1, 4),
        Err(PixelOutOfBounds { x: 4, y: 0 })
    );
    assert_eq!(
        draw_pixel(&mut buffer, 5, 1, 1, 4),
        Err(PixelOutOfBounds { x: 5, y: 1 })
    );
    assert_eq!(buffer, vec![0u32; 12]);
}

#[test]
fn pixel_with_huge_coordinates_is_reported() {
    let mut buffer = vec![0u32; 12];
    assert_eq!(
        draw_pixel(&mut buffer, usize::MAX, usize::MAX, 1, usize::MAX),
        Err(PixelOutOfBounds { x: usize::MAX as i128, y: usize::MAX as i128 })
    );
    assert_eq!(
        draw_pixel(&mut buffer, 1, usize::MAX, 1, 4),
        Err(PixelOutOfBounds { x: 1, y: usize::MAX as i128 })
    );
    assert_eq!(buffer, vec![0u32; 12]);
}

#[test]
fn pixel_in_a_row_of_width_zero_is_reported() {
    let mut buffer = vec![0u32; 4];
    assert_eq!(
        draw_pixel(&mut buffer, 0, 0, 1, 0),
        Err(PixelOutOfBounds { x: 0, y: 0 })
    );
    assert_eq!(buffer, vec![0u32; 4]);
}

#[test]
fn pixel_in_an_empty_buffer_is_reported() {
    let mut buffer: Vec<u32> = Vec::new();
    assert_eq!(
        draw_pixel(&mut buffer, 0, 0, 1, 4),
        Err(PixelOutOfBounds { x: 0, y: 0 })
    );
}

#[test]
fn pixel_in_a_partial_last_row_follows_the_buffer_length() {
    let mut buffer = vec![0u32; 10];
    assert_eq!(draw_pixel(&mut buffer, 1, 2, 5, 4), Ok(()));
    assert_eq!(buffer[9], 5);
    assert_eq!(
        draw_pixel(&mut buffer, 2, 2, 5, 4),
        Err(PixelOutOfBounds { x: 2, y: 2 })
    );
}

#[test]
fn report_text_names_both_coordinates() {
    assert_eq!(PixelOutOfBounds { x: 10, y: 0 }.message(), "x: 10 y: 0");
    assert_eq!(PixelOutOfBounds { x: 0, y: 7 }.message(), "x: 0 y: 7");
    assert_eq!(PixelOutOfBounds { x: 1205, y: 99 }.message(), "x: 1205 y: 99");
}

#[test]
fn report_text_of_negative_and_extreme_coordinates() {
    assert_eq!(PixelOutOfBounds { x: -3, y: 12 }.message(), "x: -3 y: 12");
    assert_eq!(
        PixelOutOfBounds { x: i128::MIN, y: i128::MAX }.message(),
        format!("x: {} y: {}", i128::MIN, i128::MAX)
    );
    assert_eq!(
        PixelOutOfBounds { x: 18446744073709551615, y: -1 }.message(),
        "x: 18446744073709551615 y: -1"
    );
}

#[test]
fn report_text_of_a_failed_write() {
    let mut buffer = vec![0u32; 12];
    let report = draw_pixel(&mut buffer, 9, 4, 1, 4).unwrap_err();
    assert_eq!(report.message(), "x: 9 y: 4");
}

#[test]
fn point_inside_is_written() {
    let mut buffer = vec![0u32; 12];
    draw_point(&mut buffer, 3, 1, 4, 8);
    let mut expected = vec![0u32; 12];
    expected[7] = 8;
    assert_eq!(buffer, expected);
}

#[test]
fn point_outside_is_passed_over() {
    let mut buffer = vec![0u32; 12];
    draw_point(&mut buffer, 4, 1, 4, 8);
    draw_point(&mut buffer, 0, 3, 4, 8);
    draw_point(&mut buffer, usize::MAX, usize::MAX, 4, 8);
    assert_eq!(buffer, vec![0u32; 12]);
}
