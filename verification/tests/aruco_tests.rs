use quizmark::aruco::{code_from_warped, match_marker};
use quizmark::imaging::GrayGrid;

#[test]
fn codes_of_the_dictionary_are_matched_with_their_rotation() {
    assert_eq!(match_marker(0xb532), Some((0, 0)));
    assert_eq!(match_marker(0x12d7), Some((0, 3)));
    assert_eq!(match_marker(0x6547), Some((1, 1)));
    assert_eq!(match_marker(0x7c31), Some((7, 3)));
}

#[test]
fn unknown_codes_are_not_matched() {
    assert_eq!(match_marker(0x0000), None);
    assert_eq!(match_marker(0xffff), None);
    assert_eq!(match_marker(0xb533), None);
}

fn warped(white: impl Fn(u32, u32) -> bool) -> GrayGrid {
    let mut pixels = Vec::new();
    for y in 0..60u32 {
        for x in 0..60u32 {
            pixels.push(if white(x / 10, y / 10) { 255 } else { 0 });
        }
    }
    GrayGrid { width: 60, height: 60, pixels }
}

#[test]
fn bits_are_read_row_by_row_from_the_inner_cells() {
    assert_eq!(code_from_warped(&warped(|_, _| true)), 0xffff);
    assert_eq!(code_from_warped(&warped(|_, _| false)), 0x0000);
    assert_eq!(code_from_warped(&warped(|col, row| (col + row) % 2 == 0)), 0xa5a5);
    // only the inner cell at column 1, row 1 is white: the highest bit
    assert_eq!(code_from_warped(&warped(|col, row| col == 1 && row == 1)), 0x8000);
    // only the inner cell at column 4, row 1 is white
    assert_eq!(code_from_warped(&warped(|col, row| col == 4 && row == 1)), 0x1000);
}

#[test]
fn a_cell_is_white_when_its_sampled_sum_exceeds_the_threshold() {
    // each sampled window holds 36 pixels; their sum is divided by 64
    // and compared with 128: a gray of 228 gives 8208 / 64 > 128, 227 gives 8172 / 64 < 128
    let light = GrayGrid { width: 60, height: 60, pixels: vec![228; 3600] };
    assert_eq!(code_from_warped(&light), 0xffff);
    let dark = GrayGrid { width: 60, height: 60, pixels: vec![227; 3600] };
    assert_eq!(code_from_warped(&dark), 0x0000);
}
