use quizmark::cells::{find_cell_interiors, regularize_bounds, can_regularize, detect_cells, try_detect_cells};
use quizmark::imaging::GrayGrid;

#[test]
fn interiors_of_profile_with_two_cells() {
    let mut profile = vec![100u32; 3];
    profile.extend(vec![0u32; 25]);
    profile.push(100);
    profile.extend(vec![5u32; 10]);
    profile.push(100);
    profile.extend(vec![1u32; 30]);
    let bounds = find_cell_interiors(&profile, 50);
    assert_eq!(bounds, vec![(3, 28), (40, 70)]);
}

#[test]
fn interiors_need_more_than_twenty_entries() {
    let mut profile = vec![0u32; 20];
    profile.push(9);
    profile.extend(vec![0u32; 21]);
    let bounds = find_cell_interiors(&profile, 5);
    assert_eq!(bounds, vec![(21, 42)]);
}

#[test]
fn regularize_keeps_few_bounds() {
    let b = vec![(0u32, 5u32), (10, 100)];
    assert_eq!(regularize_bounds(&b), b);
}

#[test]
fn regularize_splits_double_cell_and_drops_narrow() {
    // widths 30, 30, 62, 10; gaps 2, 2, 2
    let b = vec![(0u32, 30u32), (32, 62), (64, 126), (128, 138)];
    assert!(can_regularize(&b));
    assert_eq!(regularize_bounds(&b), vec![(0, 30), (32, 62), (64, 94), (96, 126)]);
}

fn grid_image(ink: u8, paper: u8) -> Vec<u8> {
    // 61 x 61 pixels, lines at 0, 30 and 60 in both directions
    let mut px = vec![paper; 61 * 61];
    for y in 0..61usize {
        for x in 0..61usize {
            if x % 30 == 0 || y % 30 == 0 {
                px[y * 61 + x] = ink;
            }
        }
    }
    px
}

#[test]
fn cells_of_a_two_by_two_grid() {
    let img = GrayGrid { width: 61, height: 61, pixels: grid_image(0, 255) };
    let expected = vec![
        vec![(2, 29, 2, 29), (2, 29, 32, 59)],
        vec![(32, 59, 2, 29), (32, 59, 32, 59)],
    ];
    assert_eq!(detect_cells(&img), expected);
    assert_eq!(try_detect_cells(&img), Some(expected));
}

#[test]
fn blank_image_is_one_cell() {
    let img = GrayGrid { width: 30, height: 25, pixels: vec![255; 30 * 25] };
    assert_eq!(try_detect_cells(&img), Some(vec![vec![(0, 30, 0, 25)]]));
}

#[test]
fn regularize_splits_with_zero_gap() {
    // widths 30, 30, 62 and gaps 0, 0
    let b = vec![(0u32, 30u32), (30, 60), (60, 122)];
    assert!(can_regularize(&b));
    assert_eq!(regularize_bounds(&b), vec![(0, 30), (30, 60), (60, 91), (91, 122)]);
}

#[test]
fn regularize_refuses_a_split_wider_than_the_cell() {
    // widths 10, 10, 70 and gaps 100, 100: the last bound counts as two cells,
    // but the gap between them is wider than the bound itself
    let b = vec![(0u32, 10u32), (110, 120), (220, 290)];
    assert!(!can_regularize(&b));
}

#[test]
fn few_bounds_are_kept_whatever_their_coordinates() {
    let b = vec![(4_000_000_000u32, 4_100_000_000u32), (5, 6)];
    assert!(can_regularize(&b));
    assert_eq!(regularize_bounds(&b), b);
}
