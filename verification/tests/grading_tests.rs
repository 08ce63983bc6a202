use quizmark::grading::{binarize_otsu, region_masses, selected_options, table_cells};
use quizmark::imaging::RgbaGrid;

fn gray_rgba(width: u32, height: u32, gray: &[u8]) -> RgbaGrid {
    let mut pixels = Vec::new();
    for &g in gray {
        pixels.extend_from_slice(&[g, g, g, 255]);
    }
    RgbaGrid { width, height, pixels }
}

fn grid_gray(ink: u8, paper: u8) -> Vec<u8> {
    let mut px = vec![paper; 61 * 61];
    for y in 0..61usize {
        for x in 0..61usize {
            if x % 30 == 0 || y % 30 == 0 {
                px[y * 61 + x] = ink;
            }
        }
    }
    px
}

#[test]
fn binarized_luma_of_two_grays() {
    let img = gray_rgba(2, 1, &[100, 200]);
    let out = binarize_otsu(&img);
    assert_eq!((out.width, out.height), (2, 1));
    assert_eq!(out.pixels, vec![0, 255]);
}

#[test]
fn binarized_luma_weighs_the_channels() {
    // pure green is light in luma, pure blue is dark
    let img = RgbaGrid { width: 2, height: 1, pixels: vec![0, 255, 0, 255, 0, 0, 255, 255] };
    let out = binarize_otsu(&img);
    assert_eq!(out.pixels, vec![255, 0]);
}

#[test]
fn cells_of_a_pale_table_are_found_after_binarisation() {
    // the grid lines are light gray (150): only the threshold makes them dark
    let img = gray_rgba(61, 61, &grid_gray(150, 250));
    let expected = vec![
        vec![(2, 29, 2, 29), (2, 29, 32, 59)],
        vec![(32, 59, 2, 29), (32, 59, 32, 59)],
    ];
    assert_eq!(table_cells(&img), Some(expected));
}

#[test]
fn ink_in_each_part_of_a_cell() {
    // a 30 x 30 white cell with a black square in the part at column 0, row 1
    let mut gray = vec![255u8; 30 * 30];
    for y in 11..19usize {
        for x in 3..11usize {
            gray[y * 30 + x] = 0;
        }
    }
    let img = gray_rgba(30, 30, &gray);
    let (masses, pixels) = region_masses(&img, (0, 30, 0, 30));
    assert_eq!(pixels, 64);
    assert_eq!(masses, vec![0, 64 * 255, 0, 0, 0, 0, 0, 0, 0]);
}

#[test]
fn ink_is_read_from_the_red_channel() {
    // a cyan cell: no red at all, so every part is full of ink
    let mut pixels = Vec::new();
    for _ in 0..(20 * 20) {
        pixels.extend_from_slice(&[0, 255, 255, 255]);
    }
    let img = RgbaGrid { width: 20, height: 20, pixels };
    let (masses, pixels) = region_masses(&img, (0, 20, 0, 20));
    // margins 2, parts of 5 x 5 pixels
    assert_eq!(pixels, 25);
    assert_eq!(masses, vec![25 * 255; 9]);
}

#[test]
fn letters_of_marked_options() {
    assert_eq!(selected_options(&vec![true, false, true]), "AC");
    assert_eq!(selected_options(&vec![false, false]), "");
    assert_eq!(selected_options(&vec![]), "");
}
