use quizmark::geometry::{
    average_y, calc_area_doubled, cluster_y, extract_region_boundaries, get_marker_center, group_regions,
    is_large_enough, is_marker_candidate, locate_tables, marker_outlines, recognise_markers, skew_pairs, Marker, Point,
};
use quizmark::imaging::GrayGrid;

fn p(x: i32, y: i32) -> Point {
    Point { x, y }
}

fn square(x: i32, y: i32, side: i32, id: i32) -> Marker {
    (vec![p(x, y), p(x + side, y), p(x + side, y + side), p(x, y + side)], id)
}

fn ids(ms: &[Marker]) -> Vec<i32> {
    ms.iter().map(|m| m.1).collect()
}

fn xy(q: Point) -> (i32, i32) {
    (q.x, q.y)
}

#[test]
fn centre_rounds_toward_zero() {
    assert_eq!(xy(get_marker_center(&[p(0, 0), p(10, 0), p(10, 10), p(0, 10)])), (5, 5));
    assert_eq!(xy(get_marker_center(&[p(-3, 3), p(0, 0)])), (-1, 1));
}

#[test]
fn average_height_of_centres() {
    let cluster = vec![square(0, 0, 10, 0), square(50, 0, 10, 1), square(0, 5, 10, 2)];
    // centres at heights 5, 5 and 10
    assert_eq!(average_y(&cluster), 6);
    assert_eq!(average_y(&[]), 0);
}

#[test]
fn markers_cluster_into_rows() {
    let ms = vec![square(0, 390, 20, 2), square(0, 90, 20, 1), square(0, -10, 20, 0)];
    // centres at heights 400, 100 and 0
    let rows = cluster_y(&ms);
    let rows: Vec<Vec<i32>> = rows.iter().map(|r| ids(r)).collect();
    assert_eq!(rows, vec![vec![0, 1], vec![2]]);
    assert!(cluster_y(&[]).is_empty());
}

fn results_table() -> Vec<Marker> {
    vec![square(0, 0, 10, 0), square(100, 0, 10, 1), square(0, 200, 10, 2), square(100, 200, 10, 3)]
}

#[test]
fn regions_pair_each_top_row_with_the_nearest_row_below() {
    let mut ms = results_table();
    // a second bottom row further down
    ms.push(square(0, 600, 10, 2));
    let regions = group_regions(&ms, &[0, 1], &[2, 3]);
    assert_eq!(regions.len(), 1);
    assert_eq!(ids(&regions[0]), vec![0, 1, 2, 3]);
    // no row below: no region
    let regions = group_regions(&ms[..2], &[0, 1], &[2, 3]);
    assert!(regions.is_empty());
}

#[test]
fn region_bounds_lie_inside_the_markers() {
    assert_eq!(extract_region_boundaries(&results_table()), Some((10, 100, 10, 200)));
    // without a right-hand marker there is no region
    assert_eq!(extract_region_boundaries(&results_table()[..1]), None);
    // markers that overlap leave no room inside
    let ms = vec![square(0, 0, 10, 0), square(5, 0, 10, 1), square(0, 200, 10, 2), square(5, 200, 10, 3)];
    assert_eq!(extract_region_boundaries(&ms), None);
}

#[test]
fn results_and_choices_tables_are_recognised() {
    let mut ms = results_table();
    ms.extend(vec![square(0, 300, 10, 4), square(100, 300, 10, 5), square(0, 500, 10, 6), square(100, 500, 10, 7)]);
    assert_eq!(recognise_markers(&ms), vec![(0, (10, 100, 10, 200)), (1, (10, 100, 310, 500))]);
    let locs = locate_tables(&ms);
    let locs: Vec<(i32, u32, u32, u32, u32)> = locs.iter().map(|l| (l.table_type, l.x, l.y, l.width, l.height)).collect();
    assert_eq!(locs, vec![(0, 10, 10, 90, 190), (1, 10, 310, 90, 190)]);
}

#[test]
fn twice_the_area_of_a_quadrilateral() {
    assert_eq!(calc_area_doubled(&square(3, 4, 10, 0).0), 200);
    // the same square walked the other way round
    assert_eq!(calc_area_doubled(&[p(0, 0), p(0, 10), p(10, 10), p(10, 0)]), 200);
    assert!(!is_large_enough(&square(0, 0, 10, 0).0));
    assert!(!is_large_enough(&[p(0, 0), p(40, 0), p(40, 25), p(0, 25)]));
    assert!(is_large_enough(&[p(0, 0), p(40, 0), p(40, 26), p(0, 26)]));
}

#[test]
fn skew_is_measured_between_left_and_right_markers() {
    let ms = vec![square(100, 2, 10, 1), square(0, 0, 10, 0), square(0, 200, 10, 2), square(100, 210, 10, 3)];
    let pairs: Vec<((i32, i32), (i32, i32))> = skew_pairs(&ms).into_iter().map(|(a, b)| (xy(a), xy(b))).collect();
    assert_eq!(pairs, vec![((5, 5), (105, 7)), ((5, 205), (105, 215))]);
}

#[test]
fn marker_candidates_have_four_corners_and_enough_area() {
    assert_eq!(is_marker_candidate(&square(0, 0, 50, 0).0), Some(true));
    assert_eq!(is_marker_candidate(&square(0, 0, 10, 0).0), Some(false));
    assert_eq!(is_marker_candidate(&[p(0, 0), p(100, 0), p(0, 100)]), Some(false));
    assert_eq!(is_marker_candidate(&[p(0, 0), p(100, 0), p(100, 100), p(50, 150), p(0, 100)]), Some(false));
    // coordinates whose products leave i32
    assert_eq!(is_marker_candidate(&square(0, 0, 100000, 0).0), None);
}

#[test]
fn outlines_of_a_filled_block() {
    let mut pixels = vec![0u8; 5 * 5];
    for y in 1..4usize {
        for x in 1..4usize {
            pixels[y * 5 + x] = 255;
        }
    }
    let outlines = marker_outlines(&GrayGrid { width: 5, height: 5, pixels });
    assert_eq!(outlines.len(), 1);
    let mut got: Vec<(i32, i32)> = outlines[0].iter().map(|q| (q.x, q.y)).collect();
    got.sort();
    let mut border = vec![(1, 1), (2, 1), (3, 1), (1, 2), (3, 2), (1, 3), (2, 3), (3, 3)];
    border.sort();
    assert_eq!(got, border);
}

#[test]
fn a_hollow_square_has_an_outer_and_an_inner_outline() {
    let mut pixels = vec![0u8; 7 * 7];
    for y in 1..6usize {
        for x in 1..6usize {
            if x == 1 || x == 5 || y == 1 || y == 5 {
                pixels[y * 7 + x] = 255;
            }
        }
    }
    let outlines = marker_outlines(&GrayGrid { width: 7, height: 7, pixels });
    assert_eq!(outlines.len(), 2);
    assert_eq!(outlines[0].len(), 16);
    assert!(marker_outlines(&GrayGrid { width: 3, height: 2, pixels: vec![0; 6] }).is_empty());
}

#[test]
fn centres_and_rows_of_far_away_markers() {
    // coordinates near the ends of i32: the sums leave i32 but the centres do not
    let big = i32::MAX - 10;
    let corners = vec![p(big, big), p(big - 2, big), p(big, big - 4), p(big - 2, big - 4)];
    assert_eq!(xy(get_marker_center(&corners)), (big - 1, big - 2));
    let ms = vec![(corners.clone(), 0), (vec![p(0, -big), p(0, -big)], 1)];
    let rows = cluster_y(&ms);
    let rows: Vec<Vec<i32>> = rows.iter().map(|r| ids(r)).collect();
    assert_eq!(rows, vec![vec![1], vec![0]]);
    // the rows are i32::MAX or more apart: no bottom row counts as below
    assert!(group_regions(&ms, &[1], &[0]).is_empty());
}

#[test]
fn many_markers_with_many_corners() {
    let mut ms: Vec<Marker> = Vec::new();
    for k in 0..300 {
        let corners: Vec<Point> = (0..100).map(|j| p(j % 10, 1000 * (k / 100) + j % 10)).collect();
        ms.push((corners, (k % 2) as i32));
    }
    let rows = cluster_y(&ms);
    assert_eq!(rows.len(), 3);
    assert!(rows.iter().all(|r| r.len() == 100));
    assert_eq!(average_y(&ms), 1004);
}
