//! Horizontal bars in a greyscale picture stored row by row.
use crate::euclid::{gcd, is_gcd};
use vstd::prelude::*;

verus! {

/// Number of pixels that a bar is wide for each unit of the quantity it shows.
pub const PIXELS_PER_UNIT: u16 = 10;

/// The pixel at `index` lies in the bar that starts at the left end of `row`
/// and shows `units`.
pub open spec fn in_bar(index: int, row: u16, units: u16, row_width: u16) -> bool {
    row * row_width <= index < row * row_width + units * PIXELS_PER_UNIT
}

/// Paints white the bar that starts at the left end of `row` and is ten pixels
/// wide for each of `num_pixels_to_color_in_row`. The picture is stored row by
/// row, so column `i` of row `n` is at `n * row_width + i`.
pub fn color_row(pixels: &mut [u8], row: u16, num_pixels_to_color_in_row: u16, row_width: u16)
    requires
        row * row_width <= u16::MAX,
        num_pixels_to_color_in_row * PIXELS_PER_UNIT <= u16::MAX,
        row * row_width + num_pixels_to_color_in_row * PIXELS_PER_UNIT <= old(pixels)@.len(),
    ensures
        final(pixels)@.len() == old(pixels)@.len(),
        forall|i: int|
            0 <= i < old(pixels)@.len() ==> #[trigger] final(pixels)@[i] == if in_bar(
                i,
                row,
                num_pixels_to_color_in_row,
                row_width,
            ) {
                255u8
            } else {
                old(pixels)@[i]
            },
{
    let start_index: usize = (row * row_width) as usize;
    let end_index: usize = start_index + (num_pixels_to_color_in_row * PIXELS_PER_UNIT) as usize;
    let mut index: usize = start_index;
    while index < end_index
        invariant
            start_index == row * row_width,
            end_index == start_index + num_pixels_to_color_in_row * PIXELS_PER_UNIT,
            start_index <= index <= end_index <= pixels@.len(),
            pixels@.len() == old(pixels)@.len(),
            forall|i: int|
                0 <= i < pixels@.len() ==> #[trigger] pixels@[i] == if start_index <= i < index {
                    255u8
                } else {
                    old(pixels)@[i]
                },
        decreases end_index - index,
    {
        pixels[index] = 255;
        index += 1;
    }
}

/// The pixel at `index` lies in the bar of one of `rows`.
pub open spec fn in_some_bar(index: int, rows: Seq<u16>, units: u16, row_width: u16) -> bool {
    exists|k: int| 0 <= k < rows.len() && in_bar(index, #[trigger] rows[k], units, row_width)
}

/// Paints the same bar in each of `rows`.
pub fn color_rows(pixels: &mut [u8], rows: &[u16], num_pixels_to_color_in_row: u16, row_width: u16)
    requires
        num_pixels_to_color_in_row * PIXELS_PER_UNIT <= u16::MAX,
        forall|k: int|
            0 <= k < rows@.len() ==> (#[trigger] rows@[k]) * row_width <= u16::MAX && rows@[k]
                * row_width + num_pixels_to_color_in_row * PIXELS_PER_UNIT <= old(pixels)@.len(),
    ensures
        final(pixels)@.len() == old(pixels)@.len(),
        forall|i: int|
            0 <= i < old(pixels)@.len() ==> #[trigger] final(pixels)@[i] == if in_some_bar(
                i,
                rows@,
                num_pixels_to_color_in_row,
                row_width,
            ) {
                255u8
            } else {
                old(pixels)@[i]
            },
{
    for n in 0..rows.len()
        invariant
            num_pixels_to_color_in_row * PIXELS_PER_UNIT <= u16::MAX,
            pixels@.len() == old(pixels)@.len(),
            forall|k: int|
                0 <= k < rows@.len() ==> (#[trigger] rows@[k]) * row_width <= u16::MAX && rows@[k]
                    * row_width + num_pixels_to_color_in_row * PIXELS_PER_UNIT <= pixels@.len(),
            forall|i: int|
                0 <= i < pixels@.len() ==> #[trigger] pixels@[i] == if in_some_bar(
                    i,
                    rows@.take(n as int),
                    num_pixels_to_color_in_row,
                    row_width,
                ) {
                    255u8
                } else {
                    old(pixels)@[i]
                },
    {
        let ghost before = pixels@;
        color_row(pixels, rows[n], num_pixels_to_color_in_row, row_width);
        proof {
            let done = rows@.take(n as int);
            let grown = rows@.take(n + 1);
            assert forall|i: int| 0 <= i < pixels@.len() implies (in_some_bar(
                i,
                grown,
                num_pixels_to_color_in_row,
                row_width,
            ) <==> in_some_bar(i, done, num_pixels_to_color_in_row, row_width) || in_bar(
                i,
                rows@[n as int],
                num_pixels_to_color_in_row,
                row_width,
            )) by {
                if in_some_bar(i, done, num_pixels_to_color_in_row, row_width) {
                    let k = choose|k: int|
                        0 <= k < done.len() && in_bar(
                            i,
                            #[trigger] done[k],
                            num_pixels_to_color_in_row,
                            row_width,
                        );
                    assert(grown[k] == done[k]);
                }
                if in_bar(i, rows@[n as int], num_pixels_to_color_in_row, row_width) {
                    assert(grown[n as int] == rows@[n as int]);
                }
                if in_some_bar(i, grown, num_pixels_to_color_in_row, row_width) {
                    let k = choose|k: int|
                        0 <= k < grown.len() && in_bar(
                            i,
                            #[trigger] grown[k],
                            num_pixels_to_color_in_row,
                            row_width,
                        );
                    if k < n {
                        assert(done[k] == grown[k]);
                    }
                }
            }
        }
    }
    assert(rows@.take(rows@.len() as int) =~= rows@);
}

/// Number of rows in a chart.
pub const ROW_HEIGHT: u16 = 60;

/// The largest quantity that a chart can show: with a wider bar the number of
/// pixels no longer fits sixteen bits.
pub const MAX_QUANTITY: u16 = 109;

/// Two quantities and their greatest common divisor drawn as bars: the first
/// quantity in rows 0 and 1, the second in rows 10 and 11, the divisor in rows
/// 20 and 21, white on black.
pub struct Chart {
    pub gcd: u16,
    pub row_width: u16,
    pub row_height: u16,
    pub pixels: Vec<u8>,
}

/// The shade of the pixel at `index` in the chart of `first` and `second`
/// whose greatest common divisor is `divisor`.
pub open spec fn chart_pixel(
    index: int,
    first: u16,
    second: u16,
    divisor: u16,
    row_width: u16,
) -> u8 {
    if in_some_bar(index, seq![0u16, 1u16], first, row_width) || in_some_bar(
        index,
        seq![10u16, 11u16],
        second,
        row_width,
    ) || in_some_bar(index, seq![20u16, 21u16], divisor, row_width) {
        255
    } else {
        0
    }
}

/// Computes the greatest common divisor of two quantities and draws the chart
/// of all three. Each row is ten pixels wide for each unit of the larger quantity.
pub fn gcd_chart(first: u16, second: u16) -> (chart: Chart)
    requires
        0 < first <= MAX_QUANTITY,
        0 < second <= MAX_QUANTITY,
    ensures
        is_gcd(chart.gcd as int, first as int, second as int),
        chart.row_width == PIXELS_PER_UNIT * if first >= second {
            first
        } else {
            second
        },
        chart.row_height == ROW_HEIGHT,
        chart.pixels@.len() == chart.row_width * chart.row_height,
        forall|i: int|
            0 <= i < chart.pixels@.len() ==> #[trigger] chart.pixels@[i] == chart_pixel(
                i,
                first,
                second,
                chart.gcd,
                chart.row_width,
            ),
{
    let gcd_result = gcd(first, second);
    assert(gcd_result <= first) by {
        assert(crate::euclid::divides(first as int, first as int)) by {
            vstd::arithmetic::div_mod::lemma_mod_self_0(first as int);
        }
        if gcd_result > first {
            vstd::arithmetic::div_mod::lemma_small_mod(first as nat, gcd_result as nat);
        }
    }
    let larger: u16 = if first >= second {
        first
    } else {
        second
    };
    let row_width: u16 = larger * PIXELS_PER_UNIT;
    let row_height: u16 = ROW_HEIGHT;
    let mut pixels: Vec<u8> = vec![0u8; (row_width * row_height) as usize];
    let ghost blank = pixels@;
    assert(forall|i: int| 0 <= i < blank.len() ==> #[trigger] blank[i] == 0u8);
    let top: [u16; 2] = [0, 1];
    let middle: [u16; 2] = [10, 11];
    let bottom: [u16; 2] = [20, 21];
    assert(top@ =~= seq![0u16, 1u16]);
    assert(middle@ =~= seq![10u16, 11u16]);
    assert(bottom@ =~= seq![20u16, 21u16]);
    assert forall|rows: Seq<u16>, k: int|
        (rows == top@ || rows == middle@ || rows == bottom@) && 0 <= k < rows.len() implies (
    #[trigger] rows[k]) * row_width <= 21 * row_width by {
        assert(rows[k] == 0 || rows[k] == 1 || rows[k] == 10 || rows[k] == 11 || rows[k] == 20
            || rows[k] == 21);
    }
    color_rows(pixels.as_mut_slice(), top.as_slice(), first, row_width);
    color_rows(pixels.as_mut_slice(), middle.as_slice(), second, row_width);
    color_rows(pixels.as_mut_slice(), bottom.as_slice(), gcd_result, row_width);
    Chart { gcd: gcd_result, row_width, row_height, pixels }
}

} // verus!
