use quizmark::imaging::GrayGrid;
use quizmark::profile::{sum_cols_rows, window_avg};

#[test]
fn window_sums_cut_at_both_ends() {
    let p = vec![1u32, 2, 3, 4, 5];
    assert_eq!(window_avg(&p, 3), vec![3, 6, 9, 12, 9]);
    assert_eq!(window_avg(&p, 4), vec![6, 10, 15, 14, 12]);
}

#[test]
fn window_of_one_keeps_profile() {
    let p = vec![7u32, 0, 9];
    assert_eq!(window_avg(&p, 1), p);
    assert_eq!(window_avg(&p, 0), p);
}

#[test]
fn window_of_empty_profile_is_empty() {
    assert_eq!(window_avg(&[], 3), Vec::<u32>::new());
}

#[test]
fn dark_runs_bridge_short_gaps() {
    // row 0: dark, light, dark; row 1: all light
    let img = GrayGrid { width: 3, height: 2, pixels: vec![0, 255, 0, 255, 255, 255] };
    let (cols, rows) = sum_cols_rows(&img, 0);
    assert_eq!(cols, vec![1, 0, 1]);
    assert_eq!(rows, vec![3, 0]);
}

#[test]
fn dark_runs_break_after_two_light_pixels() {
    // dark, light, light, light, dark: the run is reset on the third light pixel
    let img = GrayGrid { width: 5, height: 1, pixels: vec![10, 200, 200, 200, 10] };
    let (cols, rows) = sum_cols_rows(&img, 0);
    assert_eq!(rows, vec![1]);
    assert_eq!(cols, vec![1, 0, 0, 0, 1]);
    // dark, light, light, dark: both gaps bridged
    let img = GrayGrid { width: 4, height: 1, pixels: vec![10, 200, 200, 10] };
    let (_, rows) = sum_cols_rows(&img, 0);
    assert_eq!(rows, vec![4]);
}

#[test]
fn profiles_are_smoothed_by_the_window() {
    let img = GrayGrid { width: 3, height: 2, pixels: vec![0, 255, 0, 255, 255, 255] };
    let (cols, rows) = sum_cols_rows(&img, 3);
    assert_eq!(cols, vec![1, 2, 1]);
    assert_eq!(rows, vec![3, 3]);
}
