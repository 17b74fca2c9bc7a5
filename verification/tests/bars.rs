use taocp::bars::{color_row, color_rows, gcd_chart, MAX_QUANTITY, PIXELS_PER_UNIT, ROW_HEIGHT};

#[test]
fn color_row_paints_ten_pixels_per_unit() {
    let mut pixels = vec![0u8; 120];
    color_row(&mut pixels, 1, 2, 40);
    for (index, &pixel) in pixels.iter().enumerate() {
        let expected = if (40..60).contains(&index) { 255 } else { 0 };
        assert_eq!(pixel, expected, "pixel {}", index);
    }
}

#[test]
fn color_row_of_nothing_changes_nothing() {
    let mut pixels = vec![7u8; 30];
    color_row(&mut pixels, 2, 0, 10);
    assert_eq!(pixels, vec![7u8; 30]);
    let mut none: Vec<u8> = Vec::new();
    color_row(&mut none, 0, 0, 0);
    assert!(none.is_empty());
}

#[test]
fn color_row_may_fill_the_picture_to_its_end() {
    let mut pixels = vec![1u8; 30];
    color_row(&mut pixels, 2, 1, 10);
    assert_eq!(&pixels[..20], &[1u8; 20][..]);
    assert_eq!(&pixels[20..], &[255u8; 10][..]);
}

#[test]
fn color_row_keeps_what_lies_outside_the_bar() {
    let mut pixels: Vec<u8> = (0..50).collect();
    color_row(&mut pixels, 1, 1, 20);
    for (index, &pixel) in pixels.iter().enumerate() {
        let expected = if (20..30).contains(&index) { 255 } else { index as u8 };
        assert_eq!(pixel, expected);
    }
}

#[test]
fn color_rows_paints_each_row() {
    let mut pixels = vec![0u8; 200];
    color_rows(&mut pixels, &[0, 3], 1, 50);
    for (index, &pixel) in pixels.iter().enumerate() {
        let expected = if index < 10 || (150..160).contains(&index) { 255 } else { 0 };
        assert_eq!(pixel, expected, "pixel {}", index);
    }
}

#[test]
fn color_rows_without_rows_changes_nothing() {
    let mut pixels = vec![9u8; 15];
    color_rows(&mut pixels, &[], 1, 5);
    assert_eq!(pixels, vec![9u8; 15]);
}

#[test]
fn chart_constants() {
    assert_eq!(PIXELS_PER_UNIT, 10);
    assert_eq!(ROW_HEIGHT, 60);
    assert_eq!(MAX_QUANTITY, 109);
}

#[test]
fn chart_shows_both_quantities_and_their_divisor() {
    let chart = gcd_chart(4, 6);
    assert_eq!(chart.gcd, 2);
    assert_eq!(chart.row_width, 60);
    assert_eq!(chart.row_height, 60);
    assert_eq!(chart.pixels.len(), 3600);
    for row in 0..60usize {
        let lit = match row {
            0 | 1 => 40,
            10 | 11 => 60,
            20 | 21 => 20,
            _ => 0,
        };
        for col in 0..60usize {
            let expected = if col < lit { 255 } else { 0 };
            assert_eq!(chart.pixels[row * 60 + col], expected, "row {} col {}", row, col);
        }
    }
}

#[test]
fn chart_of_the_largest_quantities() {
    let chart = gcd_chart(109, 109);
    assert_eq!(chart.gcd, 109);
    assert_eq!(chart.row_width, 1090);
    assert_eq!(chart.pixels.len(), 65400);
    assert_eq!(chart.pixels[21 * 1090 + 1089], 255);
    assert_eq!(chart.pixels[22 * 1090], 0);
    let small = gcd_chart(1, 1);
    assert_eq!(small.row_width, 10);
    assert_eq!(small.pixels.len(), 600);
}
