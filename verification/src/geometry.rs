//! Geometry of the markers found on a page: centres, rows of markers, and the
//! regions that the markers frame.

use vstd::prelude::*;
use crate::sorting::{sort_indices_by_key, stable_order};
use crate::models::TableLocation;
use crate::imaging::{GrayGrid, contours_of, find_contours};

verus! {

/// A point in pixel coordinates.
#[derive(Clone, Copy, Debug)]
pub struct Point {
    pub x: i32,
    pub y: i32,
}

/// A detected marker: the corners of its outline and its dictionary id.
pub type Marker = (Vec<Point>, i32);

/// A marker as a mathematical value.
pub type MarkerView = (Seq<Point>, i32);

/// The view of a marker.
pub open spec fn mview(m: Marker) -> MarkerView {
    (m.0@, m.1)
}

/// The views of a list of markers.
pub open spec fn mviews(ms: Seq<Marker>) -> Seq<MarkerView> {
    ms.map_values(|m: Marker| mview(m))
}

/// The views of a list of lists of markers.
pub open spec fn groups_view(gs: Seq<Vec<Marker>>) -> Seq<Seq<MarkerView>> {
    gs.map_values(|g: Vec<Marker>| mviews(g@))
}

/// Division rounding toward zero, as Rust's integer `/` does.
pub open spec fn tdiv(a: int, b: int) -> int {
    if a >= 0 { a / b } else { -((-a) / b) }
}

/// The sum of the x coordinates.
pub open spec fn sum_x(s: Seq<Point>) -> int
    decreases s.len(),
{
    if s.len() == 0 { 0 } else { sum_x(s.drop_last()) + s.last().x }
}

/// The sum of the y coordinates.
pub open spec fn sum_y(s: Seq<Point>) -> int
    decreases s.len(),
{
    if s.len() == 0 { 0 } else { sum_y(s.drop_last()) + s.last().y }
}

/// The centre of a marker's corners: the mean of each coordinate, rounded toward zero.
pub open spec fn center(corners: Seq<Point>) -> (int, int) {
    (tdiv(sum_x(corners), corners.len() as int), tdiv(sum_y(corners), corners.len() as int))
}

/// A marker outline has a centre: it has at least one corner.
pub open spec fn corners_ok(c: Seq<Point>) -> bool {
    1 <= c.len()
}

/// Every marker of the list has at least one corner.
pub open spec fn markers_ok(ms: Seq<MarkerView>) -> bool {
    forall|i: int| 0 <= i < ms.len() ==> corners_ok(#[trigger] ms[i].0)
}

/// The y coordinate of a marker's centre.
pub open spec fn center_y(m: MarkerView) -> int {
    center(m.0).1
}

/// The sum of the centre heights of a list of markers.
pub open spec fn sum_center_y(ms: Seq<MarkerView>) -> int
    decreases ms.len(),
{
    if ms.len() == 0 { 0 } else { sum_center_y(ms.drop_last()) + center_y(ms.last()) }
}

/// The mean centre height of a cluster of markers, rounded toward zero; 0 for no markers.
pub open spec fn avg_y(ms: Seq<MarkerView>) -> int {
    if ms.len() == 0 { 0 } else { tdiv(sum_center_y(ms), ms.len() as int) }
}

proof fn lemma_sums_bounded(s: Seq<Point>, k: int)
    requires
        0 <= k <= s.len(),
    ensures
        -(k * 2147483648) <= sum_x(s.take(k)) <= k * 2147483647,
        -(k * 2147483648) <= sum_y(s.take(k)) <= k * 2147483647,
    decreases k,
{
    if k > 0 {
        lemma_sums_bounded(s, k - 1);
        assert(s.take(k).drop_last() =~= s.take(k - 1));
    }
}

proof fn lemma_tdiv_bounded(a: int, n: int, lo: int, hi: int)
    requires
        n >= 1,
        lo <= 0 <= hi,
        -(n * (-lo)) <= a <= n * hi,
    ensures
        lo <= tdiv(a, n) <= hi,
{
    let m = -lo;
    if a >= 0 {
        assert(a / n <= hi) by (nonlinear_arith)
            requires
                n >= 1,
                0 <= a <= n * hi,
        ;
        assert(a / n >= 0) by (nonlinear_arith)
            requires
                n >= 1,
                0 <= a,
        ;
    } else {
        assert((-a) / n <= m) by (nonlinear_arith)
            requires
                n >= 1,
                0 <= -a <= n * m,
        ;
        assert((-a) / n >= 0) by (nonlinear_arith)
            requires
                n >= 1,
                0 <= -a,
        ;
    }
}

/// A marker's centre is a point of `i32` coordinates.
pub proof fn lemma_center_bounded(c: Seq<Point>)
    requires
        corners_ok(c),
    ensures
        i32::MIN <= center(c).0 <= i32::MAX,
        i32::MIN <= center(c).1 <= i32::MAX,
{
    lemma_sums_bounded(c, c.len() as int);
    assert(c.take(c.len() as int) =~= c);
    lemma_tdiv_bounded(sum_x(c), c.len() as int, -2147483648, 2147483647);
    lemma_tdiv_bounded(sum_y(c), c.len() as int, -2147483648, 2147483647);
}

/// Sums of up to `usize::MAX` values of `i32` fit in `i128`.
proof fn lemma_i128_room(k: int, v: int)
    requires
        0 <= k <= usize::MAX,
        -(k * 2147483648) <= v <= k * 2147483647,
    ensures
        -170141183460469231731687303715884105728 + 2147483648 <= v <= 170141183460469231731687303715884105727 - 2147483647,
{
    assert(k * 2147483648 <= 18446744073709551615 * 2147483648) by (nonlinear_arith)
        requires
            0 <= k <= 18446744073709551615,
    ;
}

/// The centre of a marker outline: the mean of the corner coordinates, rounded toward zero.
pub fn get_marker_center(corners: &[Point]) -> (c: Point)
    requires
        corners_ok(corners@),
    ensures
        c.x == center(corners@).0,
        c.y == center(corners@).1,
{
    let n = corners.len();
    let mut sx: i128 = 0;
    let mut sy: i128 = 0;
    let mut i: usize = 0;
    while i < n
        invariant
            n == corners@.len(),
            corners_ok(corners@),
            0 <= i <= n,
            sx == sum_x(corners@.take(i as int)),
            sy == sum_y(corners@.take(i as int)),
        decreases n - i,
    {
        proof {
            lemma_sums_bounded(corners@, i as int);
            lemma_i128_room(i as int, sx as int);
            lemma_i128_room(i as int, sy as int);
            assert(corners@.take(i + 1).drop_last() =~= corners@.take(i as int));
        }
        sx = sx + corners[i].x as i128;
        sy = sy + corners[i].y as i128;
        i = i + 1;
    }
    assert(corners@.take(n as int) =~= corners@);
    proof {
        lemma_center_bounded(corners@);
    }
    let cx = sx / (n as i128);
    let cy = sy / (n as i128);
    Point { x: cx as i32, y: cy as i32 }
}

proof fn lemma_center_sums_bounded(ms: Seq<MarkerView>, k: int)
    requires
        0 <= k <= ms.len(),
        forall|i: int| 0 <= i < ms.len() ==> corners_ok(#[trigger] ms[i].0),
    ensures
        -(k * 2147483648) <= sum_center_y(ms.take(k)) <= k * 2147483647,
    decreases k,
{
    if k > 0 {
        lemma_center_sums_bounded(ms, k - 1);
        assert(ms.take(k).drop_last() =~= ms.take(k - 1));
        lemma_center_bounded(ms[k - 1].0);
    }
}

/// The mean centre height of a cluster is an `i32` value.
pub proof fn lemma_avg_y_bounded(ms: Seq<MarkerView>)
    requires
        markers_ok(ms),
    ensures
        i32::MIN <= avg_y(ms) <= i32::MAX,
{
    if ms.len() > 0 {
        lemma_center_sums_bounded(ms, ms.len() as int);
        assert(ms.take(ms.len() as int) =~= ms);
        lemma_tdiv_bounded(sum_center_y(ms), ms.len() as int, -2147483648, 2147483647);
    }
}

/// The mean height of the marker centres of a cluster, rounded toward zero; 0
/// for an empty cluster.
pub fn average_y(cluster: &[Marker]) -> (a: i32)
    requires
        markers_ok(mviews(cluster@)),
    ensures
        a == avg_y(mviews(cluster@)),
{
    let n = cluster.len();
    if n == 0 {
        return 0;
    }
    let ghost ms = mviews(cluster@);
    let mut sum: i128 = 0;
    let mut i: usize = 0;
    while i < n
        invariant
            n == cluster@.len(),
            ms == mviews(cluster@),
            markers_ok(ms),
            0 <= i <= n,
            sum == sum_center_y(ms.take(i as int)),
        decreases n - i,
    {
        proof {
            assert(ms[i as int] == mview(cluster@[i as int]));
            assert(corners_ok(ms[i as int].0));
            lemma_center_sums_bounded(ms, i as int);
            lemma_i128_room(i as int, sum as int);
            assert(ms.take(i + 1).drop_last() =~= ms.take(i as int));
        }
        let c = get_marker_center(cluster[i].0.as_slice());
        sum = sum + c.y as i128;
        i = i + 1;
    }
    assert(ms.take(n as int) =~= ms);
    proof {
        lemma_avg_y_bounded(ms);
    }
    let a = sum / (n as i128);
    a as i32
}


/// A copy of a marker.
fn clone_marker(m: &Marker) -> (r: Marker)
    ensures
        mview(r) == mview(*m),
{
    let corners = m.0.clone();
    assert(corners@ =~= m.0@);
    (corners, m.1)
}

/// Markers closer in height than this to the mean height of a row join the row.
pub const Y_THRESHOLD: i32 = 150;

/// The heights of the marker centres, as sort keys.
pub open spec fn center_keys(ms: Seq<MarkerView>) -> Seq<i64> {
    Seq::new(ms.len(), |i: int| center_y(ms[i]) as i64)
}

/// The markers ordered by the height of their centres; markers of equal height keep their order.
pub open spec fn sorted_by_center(ms: Seq<MarkerView>) -> Seq<MarkerView> {
    let order = stable_order(center_keys(ms));
    Seq::new(order.len(), |i: int| ms[order[i] as int])
}

/// `|a|`.
pub open spec fn abs(a: int) -> int {
    if a < 0 { -a } else { a }
}

/// The rows closed so far and the row being built, after the first `k >= 1`
/// markers of `s`: each marker joins the current row when its centre height is
/// within `Y_THRESHOLD` of the row's mean height, and otherwise starts a new row.
pub open spec fn cluster_state(s: Seq<MarkerView>, k: int) -> (Seq<Seq<MarkerView>>, Seq<MarkerView>)
    decreases k,
{
    if k <= 1 {
        (Seq::empty(), seq![s[0]])
    } else {
        let (closed, current) = cluster_state(s, k - 1);
        if abs(center_y(s[k - 1]) - avg_y(current)) < Y_THRESHOLD {
            (closed, current.push(s[k - 1]))
        } else {
            (closed.push(current), seq![s[k - 1]])
        }
    }
}

/// The rows of a sequence of markers, grouped greedily in the order given.
pub open spec fn clusters(s: Seq<MarkerView>) -> Seq<Seq<MarkerView>> {
    if s.len() == 0 {
        Seq::empty()
    } else {
        let (closed, current) = cluster_state(s, s.len() as int);
        closed.push(current)
    }
}

/// The rows of markers: sorted by centre height, then grouped greedily.
pub open spec fn cluster_rows(ms: Seq<MarkerView>) -> Seq<Seq<MarkerView>> {
    clusters(sorted_by_center(ms))
}

/// Every marker of a row state is one of the given markers.
pub open spec fn all_from(rows: Seq<Seq<MarkerView>>, pool: Seq<MarkerView>) -> bool {
    forall|i: int, j: int| 0 <= i < rows.len() && 0 <= j < rows[i].len() ==> pool.contains(#[trigger] rows[i][j])
}

proof fn lemma_cluster_state_from(s: Seq<MarkerView>, k: int)
    requires
        1 <= k <= s.len(),
    ensures
        forall|j: int| 0 <= j < cluster_state(s, k).1.len() ==> s.contains(#[trigger] cluster_state(s, k).1[j]),
        all_from(cluster_state(s, k).0, s),
        1 <= cluster_state(s, k).1.len() <= k,
        cluster_state(s, k).0.len() <= k,
    decreases k,
{
    if k > 1 {
        lemma_cluster_state_from(s, k - 1);
        assert(s.contains(s[k - 1]));
        let (closed, current) = cluster_state(s, k - 1);
        assert forall|i: int, j: int| 0 <= i < cluster_state(s, k).0.len() && 0 <= j < cluster_state(s, k).0[i].len()
            implies s.contains(#[trigger] cluster_state(s, k).0[i][j]) by {
            if i < closed.len() {
                assert(cluster_state(s, k).0[i] == closed[i]);
            } else {
                assert(cluster_state(s, k).0[i] == current);
            }
        }
    } else {
        assert(s.contains(s[0]));
    }
}

/// Groups markers into rows: sorted by the height of their centres, each
/// marker joins the current row when its centre is within 150 pixels of the
/// row's mean height, and starts a new row otherwise.
pub fn cluster_y(markers: &[Marker]) -> (rows: Vec<Vec<Marker>>)
    requires
        markers_ok(mviews(markers@)),
    ensures
        groups_view(rows@) == cluster_rows(mviews(markers@)),
{
    let n = markers.len();
    if n == 0 {
        let rows: Vec<Vec<Marker>> = Vec::new();
        proof {
            let keys = center_keys(mviews(markers@));
            crate::sorting::lemma_key_then_index_total(keys);
            crate::sorting::indices(0).lemma_sort_by_ensures(crate::sorting::key_then_index(keys));
            vstd::seq_lib::to_multiset_len(crate::sorting::indices(0));
            vstd::seq_lib::to_multiset_len(stable_order(keys));
        }
        assert(groups_view(rows@) =~= cluster_rows(mviews(markers@)));
        return rows;
    }
    let ghost ms = mviews(markers@);
    let mut keys: Vec<i64> = Vec::new();
    let mut i: usize = 0;
    while i < n
        invariant
            n == markers@.len(),
            ms == mviews(markers@),
            markers_ok(ms),
            0 <= i <= n,
            keys@ == center_keys(ms).take(i as int),
        decreases n - i,
    {
        assert(ms[i as int] == mview(markers@[i as int]));
        assert(corners_ok(ms[i as int].0));
        let c = get_marker_center(markers[i].0.as_slice());
        keys.push(c.y as i64);
        assert(keys@ =~= center_keys(ms).take(i + 1));
        i = i + 1;
    }
    assert(keys@ =~= center_keys(ms));
    let order = sort_indices_by_key(&keys);
    let ghost sorted_ms = sorted_by_center(ms);
    let mut sorted: Vec<Marker> = Vec::new();
    let mut i: usize = 0;
    while i < n
        invariant
            n == markers@.len(),
            ms == mviews(markers@),
            order@ == stable_order(center_keys(ms)),
            order@.len() == n,
            forall|k: int| 0 <= k < n ==> #[trigger] order@[k] < n,
            sorted_ms == sorted_by_center(ms),
            0 <= i <= n,
            mviews(sorted@) == sorted_ms.take(i as int),
        decreases n - i,
    {
        let m = clone_marker(&markers[order[i]]);
        assert(mview(m) == ms[order@[i as int] as int]);
        assert(sorted_ms[i as int] == ms[order@[i as int] as int]);
        let ghost before = sorted@;
        sorted.push(m);
        assert(mviews(sorted@) =~= mviews(before).push(mview(m)));
        assert(mviews(sorted@) =~= sorted_ms.take(i + 1));
        i = i + 1;
    }
    assert(mviews(sorted@) =~= sorted_ms);
    proof {
        assert forall|k: int| 0 <= k < sorted_ms.len() implies corners_ok(#[trigger] sorted_ms[k].0) by {
            assert(sorted_ms[k] == ms[order@[k] as int]);
        }
    }

    let mut clusters_done: Vec<Vec<Marker>> = Vec::new();
    let mut current_cluster: Vec<Marker> = Vec::new();
    current_cluster.push(clone_marker(&sorted[0]));
    assert(mviews(current_cluster@) =~= cluster_state(sorted_ms, 1).1);
    let mut current_y = average_y(current_cluster.as_slice());
    let mut k: usize = 1;
    while k < n
        invariant
            n == sorted_ms.len(),
            mviews(sorted@) == sorted_ms,
            forall|j: int| 0 <= j < n ==> corners_ok(#[trigger] sorted_ms[j].0),
            1 <= k <= n,
            groups_view(clusters_done@) == cluster_state(sorted_ms, k as int).0,
            mviews(current_cluster@) == cluster_state(sorted_ms, k as int).1,
            current_y == avg_y(mviews(current_cluster@)),
        decreases n - k,
    {
        proof {
            lemma_cluster_state_from(sorted_ms, k as int);
            let cur = cluster_state(sorted_ms, k as int).1;
            assert forall|j: int| 0 <= j < cur.len() implies corners_ok(#[trigger] cur[j].0) by {
                assert(sorted_ms.contains(cur[j]));
            }
            lemma_avg_y_bounded(cur);
            assert(sorted_ms[k as int] == mview(sorted@[k as int]));
            lemma_center_bounded(sorted_ms[k as int].0);
        }
        let y = get_marker_center(sorted[k].0.as_slice()).y;
        let diff: i64 = y as i64 - current_y as i64;
        let dist: i64 = if diff < 0 { -diff } else { diff };
        if dist < Y_THRESHOLD as i64 {
            let ghost before = current_cluster@;
            current_cluster.push(clone_marker(&sorted[k]));
            assert(mviews(current_cluster@) =~= mviews(before).push(sorted_ms[k as int]));
            proof {
                lemma_cluster_state_from(sorted_ms, k + 1);
                let cur = cluster_state(sorted_ms, k + 1).1;
                assert forall|j: int| 0 <= j < cur.len() implies corners_ok(#[trigger] cur[j].0) by {
                    assert(sorted_ms.contains(cur[j]));
                }
            }
            current_y = average_y(current_cluster.as_slice());
        } else {
            let ghost before_done = clusters_done@;
            let ghost before_cur = mviews(current_cluster@);
            clusters_done.push(current_cluster);
            assert(groups_view(clusters_done@) =~= groups_view(before_done).push(before_cur));
            current_cluster = Vec::new();
            current_cluster.push(clone_marker(&sorted[k]));
            assert(mviews(current_cluster@) =~= seq![sorted_ms[k as int]]);
            proof {
                lemma_center_bounded(sorted_ms[k as int].0);
            }
            current_y = average_y(current_cluster.as_slice());
        }
        k = k + 1;
    }
    let ghost before_done = clusters_done@;
    let ghost before_cur = mviews(current_cluster@);
    clusters_done.push(current_cluster);
    assert(groups_view(clusters_done@) =~= groups_view(before_done).push(before_cur));
    clusters_done
}


/// The markers whose id satisfies `sel`, in order.
pub open spec fn select(ms: Seq<MarkerView>, sel: spec_fn(i32) -> bool) -> Seq<MarkerView>
    decreases ms.len(),
{
    if ms.len() == 0 {
        Seq::empty()
    } else if sel(ms.last().1) {
        select(ms.drop_last(), sel).push(ms.last())
    } else {
        select(ms.drop_last(), sel)
    }
}

/// Every selected marker is one of the markers.
pub proof fn lemma_select_from(ms: Seq<MarkerView>, sel: spec_fn(i32) -> bool)
    ensures
        select(ms, sel).len() <= ms.len(),
        forall|j: int| 0 <= j < select(ms, sel).len() ==> ms.contains(#[trigger] select(ms, sel)[j]),
    decreases ms.len(),
{
    if ms.len() > 0 {
        lemma_select_from(ms.drop_last(), sel);
        assert forall|j: int| 0 <= j < select(ms, sel).len() implies ms.contains(#[trigger] select(ms, sel)[j]) by {
            if j < select(ms.drop_last(), sel).len() {
                assert(ms.drop_last().contains(select(ms.drop_last(), sel)[j]));
                let k = choose|k: int| 0 <= k < ms.drop_last().len() && ms.drop_last()[k] == select(ms.drop_last(), sel)[j];
                assert(ms[k] == ms.drop_last()[k]);
            } else {
                assert(ms[ms.len() - 1] == ms.last());
            }
        }
    }
}

/// Markers selected from acceptable markers are acceptable.
pub proof fn lemma_select_ok(ms: Seq<MarkerView>, sel: spec_fn(i32) -> bool)
    requires
        markers_ok(ms),
    ensures
        markers_ok(select(ms, sel)),
{
    lemma_select_from(ms, sel);
    assert forall|j: int| 0 <= j < select(ms, sel).len() implies corners_ok(#[trigger] select(ms, sel)[j].0) by {
        assert(ms.contains(select(ms, sel)[j]));
    }
}

/// The id is in the list.
pub open spec fn id_in(ids: Seq<i32>) -> spec_fn(i32) -> bool {
    |id: i32| ids.contains(id)
}

/// Whether `id` is in the list.
fn contains_id(ids: &[i32], id: i32) -> (r: bool)
    ensures
        r == ids@.contains(id),
{
    let mut i: usize = 0;
    while i < ids.len()
        invariant
            0 <= i <= ids@.len(),
            forall|k: int| 0 <= k < i ==> ids@[k] != id,
        decreases ids@.len() - i,
    {
        if ids[i] == id {
            assert(ids@[i as int] == id);
            return true;
        }
        i = i + 1;
    }
    false
}

/// Copies of the markers whose id is in `ids`, in order.
fn select_ids(markers: &[Marker], ids: &[i32]) -> (r: Vec<Marker>)
    ensures
        mviews(r@) == select(mviews(markers@), id_in(ids@)),
{
    let ghost ms = mviews(markers@);
    let mut r: Vec<Marker> = Vec::new();
    let mut i: usize = 0;
    while i < markers.len()
        invariant
            ms == mviews(markers@),
            0 <= i <= markers@.len(),
            mviews(r@) == select(ms.take(i as int), id_in(ids@)),
        decreases markers@.len() - i,
    {
        assert(ms.take(i + 1).drop_last() =~= ms.take(i as int));
        assert(ms.take(i + 1).last() == mview(markers@[i as int]));
        if contains_id(ids, markers[i].1) {
            let m = clone_marker(&markers[i]);
            let ghost before = r@;
            r.push(m);
            assert(mviews(r@) =~= mviews(before).push(mview(m)));
        }
        i = i + 1;
    }
    assert(ms.take(markers@.len() as int) =~= ms);
    r
}

/// The height `b_y` lies below `t_y`, at a distance that an `i32` holds
/// below `i32::MAX` (the distance is measured in `i32` and compared with
/// `i32::MAX`, the distance of no row).
pub open spec fn lies_below(b_y: int, t_y: int) -> bool {
    t_y < b_y && b_y - t_y < i32::MAX
}

/// Row `j` lies below the height `t_y` and no row lies below it at a smaller
/// distance; of rows at the same smallest distance it is the first.
pub open spec fn is_nearest_below(rows: Seq<Seq<MarkerView>>, t_y: int, j: int) -> bool {
    &&& 0 <= j < rows.len()
    &&& lies_below(avg_y(rows[j]), t_y)
    &&& forall|i: int| 0 <= i < rows.len() && lies_below(avg_y(#[trigger] rows[i]), t_y) ==>
            avg_y(rows[j]) <= avg_y(rows[i]) && (i < j ==> avg_y(rows[j]) < avg_y(rows[i]))
}

/// Some row lies below the height `t_y`.
pub open spec fn has_row_below(rows: Seq<Seq<MarkerView>>, t_y: int) -> bool {
    exists|i: int| 0 <= i < rows.len() && lies_below(avg_y(#[trigger] rows[i]), t_y)
}

/// The regions framed by the first `k` top rows: each top row that has a
/// bottom row below it, followed by the nearest such bottom row.
pub open spec fn regions_upto(top: Seq<Seq<MarkerView>>, bottom: Seq<Seq<MarkerView>>, k: int) -> Seq<Seq<MarkerView>>
    decreases k,
{
    if k <= 0 {
        Seq::empty()
    } else {
        let t = top[k - 1];
        let before = regions_upto(top, bottom, k - 1);
        if has_row_below(bottom, avg_y(t)) {
            let j = choose|j: int| is_nearest_below(bottom, avg_y(t), j);
            before.push(t + bottom[j])
        } else {
            before
        }
    }
}

/// The regions of a page: the markers with a top id are grouped into rows, and
/// so are those with a bottom id; each top row is joined to the nearest bottom
/// row below it.
pub open spec fn marker_regions(ms: Seq<MarkerView>, top_ids: Seq<i32>, bottom_ids: Seq<i32>) -> Seq<Seq<MarkerView>> {
    let top = cluster_rows(select(ms, id_in(top_ids)));
    let bottom = cluster_rows(select(ms, id_in(bottom_ids)));
    regions_upto(top, bottom, top.len() as int)
}

/// The markers of every row of the result are among the given markers.
pub open spec fn rows_from(rows: Seq<Seq<MarkerView>>, ms: Seq<MarkerView>) -> bool {
    forall|i: int, j: int| 0 <= i < rows.len() && 0 <= j < rows[i].len() ==> ms.contains(#[trigger] rows[i][j])
}

/// The rows of acceptable markers hold only those markers, and no more than there are.
pub proof fn lemma_cluster_rows_from(ms: Seq<MarkerView>)
    requires
        markers_ok(ms),
    ensures
        rows_from(cluster_rows(ms), ms),
        forall|i: int| 0 <= i < cluster_rows(ms).len() ==> 1 <= #[trigger] cluster_rows(ms)[i].len() <= ms.len(),
{
    let keys = center_keys(ms);
    let order = stable_order(keys);
    crate::sorting::lemma_key_then_index_total(keys);
    crate::sorting::indices(ms.len()).lemma_sort_by_ensures(crate::sorting::key_then_index(keys));
    vstd::seq_lib::to_multiset_len(crate::sorting::indices(ms.len()));
    vstd::seq_lib::to_multiset_len(order);
    let s = sorted_by_center(ms);
    assert forall|k: int| 0 <= k < s.len() implies ms.contains(#[trigger] s[k]) by {
        assert(order.contains(order[k]));
        vstd::seq_lib::to_multiset_contains(order, order[k]);
        vstd::seq_lib::to_multiset_contains(crate::sorting::indices(ms.len()), order[k]);
        let i = choose|i: int| 0 <= i < crate::sorting::indices(ms.len()).len() && crate::sorting::indices(ms.len())[i] == order[k];
        assert(s[k] == ms[order[k] as int]);
    }
    if s.len() > 0 {
        lemma_cluster_state_from(s, s.len() as int);
        let (closed, current) = cluster_state(s, s.len() as int);
        assert forall|i: int, j: int| 0 <= i < cluster_rows(ms).len() && 0 <= j < cluster_rows(ms)[i].len()
            implies ms.contains(#[trigger] cluster_rows(ms)[i][j]) by {
            if i < closed.len() {
                assert(s.contains(closed[i][j]));
            } else {
                assert(s.contains(current[j]));
            }
            let k = choose|k: int| 0 <= k < s.len() && s[k] == cluster_rows(ms)[i][j];
        }
        lemma_cluster_rows_sizes(s, s.len() as int);
    }
}

proof fn lemma_cluster_rows_sizes(s: Seq<MarkerView>, k: int)
    requires
        1 <= k <= s.len(),
    ensures
        forall|i: int| 0 <= i < cluster_state(s, k).0.len() ==> 1 <= #[trigger] cluster_state(s, k).0[i].len() <= k,
        1 <= cluster_state(s, k).1.len() <= k,
    decreases k,
{
    if k > 1 {
        lemma_cluster_rows_sizes(s, k - 1);
    }
}


/// Every row of acceptable markers is itself an acceptable list of markers.
pub proof fn lemma_rows_ok(ms: Seq<MarkerView>)
    requires
        markers_ok(ms),
    ensures
        forall|i: int| 0 <= i < cluster_rows(ms).len() ==> markers_ok(#[trigger] cluster_rows(ms)[i]),
{
    lemma_cluster_rows_from(ms);
    assert forall|i: int| 0 <= i < cluster_rows(ms).len() implies markers_ok(#[trigger] cluster_rows(ms)[i]) by {
        let row = cluster_rows(ms)[i];
        assert forall|j: int| 0 <= j < row.len() implies corners_ok(#[trigger] row[j].0) by {
            assert(ms.contains(row[j]));
        }
    }
}

/// At most one row is the nearest below a height.
pub proof fn lemma_nearest_unique(rows: Seq<Seq<MarkerView>>, t_y: int, a: int, b: int)
    requires
        is_nearest_below(rows, t_y, a),
        is_nearest_below(rows, t_y, b),
    ensures
        a == b,
{
    if a < b {
        assert(avg_y(rows[b]) < avg_y(rows[a]));
    } else if b < a {
        assert(avg_y(rows[a]) < avg_y(rows[b]));
    }
}

/// The index of the bottom row nearest below the height `t_y`, if any row lies below it.
fn nearest_below(rows: &Vec<Vec<Marker>>, t_y: i32) -> (best: Option<usize>)
    requires
        forall|i: int| 0 <= i < rows@.len() ==> markers_ok(#[trigger] mviews(rows@[i]@)),
    ensures
        match best {
            Some(j) => is_nearest_below(groups_view(rows@), t_y as int, j as int),
            None => !has_row_below(groups_view(rows@), t_y as int),
        },
{
    let ghost g = groups_view(rows@);
    let mut best: Option<usize> = None;
    let mut min_dist: i64 = i32::MAX as i64;
    let mut j: usize = 0;
    while j < rows.len()
        invariant
            g == groups_view(rows@),
            forall|i: int| 0 <= i < rows@.len() ==> markers_ok(#[trigger] mviews(rows@[i]@)),
            0 <= j <= rows@.len(),
            match best {
                Some(b) => b < j && is_nearest_below(g.take(j as int), t_y as int, b as int)
                    && min_dist == avg_y(g[b as int]) - t_y,
                None => min_dist == i32::MAX && forall|i: int| 0 <= i < j ==> !lies_below(avg_y(#[trigger] g[i]), t_y as int),
            },
        decreases rows@.len() - j,
    {
        assert(g[j as int] == mviews(rows@[j as int]@));
        proof {
            lemma_avg_y_bounded(g[j as int]);
        }
        let b_y = average_y(rows[j].as_slice());
        let ghost old_best = best;
        let dist: i64 = b_y as i64 - t_y as i64;
        if dist > 0 && dist < min_dist {
            min_dist = dist;
            best = Some(j);
        }
        proof {
            let gt = g.take(j + 1);
            assert forall|i: int| 0 <= i < j implies gt[i] == #[trigger] g.take(j as int)[i] by {}
            match best {
                Some(b) => {
                    assert forall|i: int| 0 <= i < gt.len() && lies_below(avg_y(#[trigger] gt[i]), t_y as int) implies
                        avg_y(gt[b as int]) <= avg_y(gt[i]) && (i < b ==> avg_y(gt[b as int]) < avg_y(gt[i])) by {
                        if i < j {
                            assert(gt[i] == g.take(j as int)[i]);
                            match old_best {
                                Some(ob) => {
                                    assert(g.take(j as int)[ob as int] == g[ob as int]);
                                },
                                None => {},
                            }
                        }
                    }
                },
                None => {},
            }
        }
        j = j + 1;
    }
    assert(g.take(rows@.len() as int) =~= g);
    best
}

/// Copies of all markers of a list.
fn clone_markers(ms: &Vec<Marker>) -> (r: Vec<Marker>)
    ensures
        mviews(r@) == mviews(ms@),
{
    let mut r: Vec<Marker> = Vec::new();
    let mut i: usize = 0;
    while i < ms.len()
        invariant
            0 <= i <= ms@.len(),
            mviews(r@) == mviews(ms@).take(i as int),
        decreases ms@.len() - i,
    {
        let m = clone_marker(&ms[i]);
        let ghost before = r@;
        r.push(m);
        assert(mviews(r@) =~= mviews(before).push(mview(m)));
        assert(mviews(r@) =~= mviews(ms@).take(i + 1));
        i = i + 1;
    }
    assert(mviews(ms@).take(ms@.len() as int) =~= mviews(ms@));
    r
}

/// Groups the markers into regions: the markers with an id in `top_ids` and
/// those with an id in `bottom_ids` are each grouped into rows, and each top
/// row is joined to the nearest bottom row below it (top rows with none below
/// them are dropped).
pub fn group_regions(markers: &[Marker], top_ids: &[i32], bottom_ids: &[i32]) -> (rs: Vec<Vec<Marker>>)
    requires
        markers_ok(mviews(markers@)),
    ensures
        groups_view(rs@) == marker_regions(mviews(markers@), top_ids@, bottom_ids@),
{
    let ghost ms = mviews(markers@);
    let top_markers = select_ids(markers, top_ids);
    let bottom_markers = select_ids(markers, bottom_ids);
    proof {
        lemma_select_ok(ms, id_in(top_ids@));
        lemma_select_ok(ms, id_in(bottom_ids@));
    }
    let top_rows = cluster_y(top_markers.as_slice());
    let bottom_rows = cluster_y(bottom_markers.as_slice());
    let ghost top = groups_view(top_rows@);
    let ghost bottom = groups_view(bottom_rows@);
    proof {
        lemma_rows_ok(select(ms, id_in(top_ids@)));
        lemma_rows_ok(select(ms, id_in(bottom_ids@)));
        assert forall|i: int| 0 <= i < bottom_rows@.len() implies markers_ok(#[trigger] mviews(bottom_rows@[i]@)) by {
            assert(mviews(bottom_rows@[i]@) == bottom[i]);
        }
    }
    let mut result: Vec<Vec<Marker>> = Vec::new();
    let mut i: usize = 0;
    while i < top_rows.len()
        invariant
            top == groups_view(top_rows@),
            bottom == groups_view(bottom_rows@),
            top == cluster_rows(select(ms, id_in(top_ids@))),
            bottom == cluster_rows(select(ms, id_in(bottom_ids@))),
            forall|k: int| 0 <= k < top.len() ==> markers_ok(#[trigger] top[k]),
            forall|k: int| 0 <= k < bottom_rows@.len() ==> markers_ok(#[trigger] mviews(bottom_rows@[k]@)),
            0 <= i <= top_rows@.len(),
            groups_view(result@) == regions_upto(top, bottom, i as int),
        decreases top_rows@.len() - i,
    {
        assert(top[i as int] == mviews(top_rows@[i as int]@));
        proof {
            lemma_avg_y_bounded(top[i as int]);
        }
        let t_y = average_y(top_rows[i].as_slice());
        let best = nearest_below(&bottom_rows, t_y);
        match best {
            Some(j) => {
                let mut region = clone_markers(&top_rows[i]);
                let extra = clone_markers(&bottom_rows[j]);
                let ghost r0 = region@;
                let mut extra_mut = extra;
                region.append(&mut extra_mut);
                proof {
                    assert(mviews(region@) =~= mviews(r0) + mviews(extra@));
                    let c = choose|c: int| is_nearest_below(bottom, avg_y(top[i as int]), c);
                    lemma_nearest_unique(bottom, avg_y(top[i as int]), c, j as int);
                    assert(bottom[j as int] == mviews(bottom_rows@[j as int]@));
                }
                let ghost before = result@;
                let ghost rv = mviews(region@);
                result.push(region);
                assert(groups_view(result@) =~= groups_view(before).push(rv));
            },
            None => {},
        }
        i = i + 1;
    }
    result
}


/// Which markers bound a region on which side: side 0 is the left edge (ids 0,
/// 2, 4, 6), side 1 the right edge (ids 1, 3, 5, 7), side 2 the top edge (ids
/// 0, 1, 4, 5) and side 3 the bottom edge (ids 2, 3, 6, 7).
pub open spec fn edge_sel(side: int, id: i32) -> bool {
    if side == 0 {
        id == 0 || id == 2 || id == 4 || id == 6
    } else if side == 1 {
        id == 1 || id == 3 || id == 5 || id == 7
    } else if side == 2 {
        id == 0 || id == 1 || id == 4 || id == 5
    } else {
        id == 2 || id == 3 || id == 6 || id == 7
    }
}

/// The coordinate of a point that a side looks at: x for the left and
/// right edges, y for the top and bottom edges.
pub open spec fn coord(side: int, p: Point) -> int {
    if side <= 1 { p.x as int } else { p.y as int }
}

/// Sides 0 and 2 take maxima, sides 1 and 3 minima.
pub open spec fn takes_max(side: int) -> bool {
    side == 0 || side == 2
}

/// The better of two values for a side.
pub open spec fn pick(side: int, a: int, b: int) -> int {
    if takes_max(side) {
        if a >= b { a } else { b }
    } else {
        if a <= b { a } else { b }
    }
}

/// The inner coordinate of a marker for a side: the largest (left, top) or
/// smallest (right, bottom) coordinate of its corners; 0 without corners.
pub open spec fn corner_extreme(side: int, c: Seq<Point>) -> int
    decreases c.len(),
{
    if c.len() == 0 {
        0
    } else if c.len() == 1 {
        coord(side, c[0])
    } else {
        pick(side, corner_extreme(side, c.drop_last()), coord(side, c.last()))
    }
}

/// The inner edge of a region on one side: over the markers of that side, the
/// innermost of their inner sides; `None` without such markers.
pub open spec fn edge(side: int, ms: Seq<MarkerView>) -> Option<int>
    decreases ms.len(),
{
    if ms.len() == 0 {
        None
    } else {
        let prev = edge(side, ms.drop_last());
        if edge_sel(side, ms.last().1) {
            let v = corner_extreme(side, ms.last().0);
            match prev {
                Some(p) => Some(pick(side, p, v)),
                None => Some(v),
            }
        } else {
            prev
        }
    }
}

/// The inner rectangle `(min_x, max_x, min_y, max_y)` framed by a region's
/// markers, when all four sides have markers, the rectangle starts at
/// non-negative coordinates and is not empty.
pub open spec fn region_bounds(ms: Seq<MarkerView>) -> Option<(i32, i32, i32, i32)> {
    match (edge(0, ms), edge(1, ms), edge(2, ms), edge(3, ms)) {
        (Some(l), Some(r), Some(t), Some(b)) => if l >= 0 && t >= 0 && r > l && b > t {
            Some((l as i32, r as i32, t as i32, b as i32))
        } else {
            None
        },
        _ => None,
    }
}

proof fn lemma_corner_extreme_i32(side: int, c: Seq<Point>)
    ensures
        i32::MIN <= corner_extreme(side, c) <= i32::MAX,
    decreases c.len(),
{
    if c.len() > 1 {
        lemma_corner_extreme_i32(side, c.drop_last());
    }
}

proof fn lemma_edge_i32(side: int, ms: Seq<MarkerView>)
    ensures
        edge(side, ms) matches Some(v) ==> i32::MIN <= v <= i32::MAX,
    decreases ms.len(),
{
    if ms.len() > 0 {
        lemma_edge_i32(side, ms.drop_last());
        lemma_corner_extreme_i32(side, ms.last().0);
    }
}

/// The innermost corner coordinate of a marker for a side (0 without corners).
fn corner_extreme_of(side: u8, corners: &[Point]) -> (v: i32)
    requires
        side <= 3,
    ensures
        v == corner_extreme(side as int, corners@),
{
    let n = corners.len();
    if n == 0 {
        return 0;
    }
    let mut best: i32 = if side <= 1 { corners[0].x } else { corners[0].y };
    assert(corners@.take(1) =~= seq![corners@[0]]);
    let mut i: usize = 1;
    while i < n
        invariant
            n == corners@.len(),
            side <= 3,
            1 <= i <= n,
            best == corner_extreme(side as int, corners@.take(i as int)),
        decreases n - i,
    {
        assert(corners@.take(i + 1).drop_last() =~= corners@.take(i as int));
        let c = if side <= 1 { corners[i].x } else { corners[i].y };
        if side == 0 || side == 2 {
            if c > best {
                best = c;
            }
        } else {
            if c < best {
                best = c;
            }
        }
        i = i + 1;
    }
    assert(corners@.take(n as int) =~= corners@);
    best
}

/// Whether a marker id bounds a region on the given side.
fn edge_selects(side: u8, id: i32) -> (r: bool)
    requires
        side <= 3,
    ensures
        r == edge_sel(side as int, id),
{
    if side == 0 {
        id == 0 || id == 2 || id == 4 || id == 6
    } else if side == 1 {
        id == 1 || id == 3 || id == 5 || id == 7
    } else if side == 2 {
        id == 0 || id == 1 || id == 4 || id == 5
    } else {
        id == 2 || id == 3 || id == 6 || id == 7
    }
}

/// The inner edge of a region on the given side.
fn edge_of(side: u8, markers: &[Marker]) -> (e: Option<i32>)
    requires
        side <= 3,
    ensures
        match e {
            Some(v) => edge(side as int, mviews(markers@)) == Some(v as int),
            None => edge(side as int, mviews(markers@)) is None,
        },
{
    let ghost ms = mviews(markers@);
    let mut best: Option<i32> = None;
    let mut i: usize = 0;
    while i < markers.len()
        invariant
            side <= 3,
            ms == mviews(markers@),
            0 <= i <= markers@.len(),
            match best {
                Some(v) => edge(side as int, ms.take(i as int)) == Some(v as int),
                None => edge(side as int, ms.take(i as int)) is None,
            },
        decreases markers@.len() - i,
    {
        assert(ms.take(i + 1).drop_last() =~= ms.take(i as int));
        assert(ms.take(i + 1).last() == mview(markers@[i as int]));
        if edge_selects(side, markers[i].1) {
            let v = corner_extreme_of(side, markers[i].0.as_slice());
            best = match best {
                Some(p) => if side == 0 || side == 2 {
                    Some(if p >= v { p } else { v })
                } else {
                    Some(if p <= v { p } else { v })
                },
                None => Some(v),
            };
        }
        i = i + 1;
    }
    assert(ms.take(markers@.len() as int) =~= ms);
    best
}

/// The inner rectangle `(min_x, max_x, min_y, max_y)` framed by a region's
/// markers: the left and top edges are the largest right/bottom corner
/// coordinates of the left/top markers, the right and bottom edges the
/// smallest left/top corner coordinates of the right/bottom markers. `None`
/// when a side has no marker, or the rectangle is empty or starts at a
/// negative coordinate.
pub fn extract_region_boundaries(markers: &[Marker]) -> (b: Option<(i32, i32, i32, i32)>)
    ensures
        b == region_bounds(mviews(markers@)),
{
    let inner_min_x = match edge_of(0, markers) {
        Some(v) => v,
        None => return None,
    };
    let inner_max_x = match edge_of(1, markers) {
        Some(v) => v,
        None => return None,
    };
    let inner_min_y = match edge_of(2, markers) {
        Some(v) => v,
        None => return None,
    };
    let inner_max_y = match edge_of(3, markers) {
        Some(v) => v,
        None => return None,
    };
    if inner_min_x >= 0 && inner_min_y >= 0 && inner_max_x > inner_min_x && inner_max_y > inner_min_y {
        Some((inner_min_x, inner_max_x, inner_min_y, inner_max_y))
    } else {
        None
    }
}


/// The bounds of the regions that have them, each labelled with the table type.
pub open spec fn labeled_bounds(rs: Seq<Seq<MarkerView>>, label: i32) -> Seq<(i32, (i32, i32, i32, i32))>
    decreases rs.len(),
{
    if rs.len() == 0 {
        Seq::empty()
    } else {
        let before = labeled_bounds(rs.drop_last(), label);
        match region_bounds(rs.last()) {
            Some(b) => before.push((label, b)),
            None => before,
        }
    }
}

/// The ids `[a, b]`.
pub open spec fn ids2(a: i32, b: i32) -> Seq<i32> {
    seq![a, b]
}

/// The ids `[a, b, c, d]`.
pub open spec fn ids4(a: i32, b: i32, c: i32, d: i32) -> Seq<i32> {
    seq![a, b, c, d]
}

/// The tables framed by the markers: results tables (type 0) by the markers
/// with ids 0 to 3, top row 0 and 1, bottom row 2 and 3; choices tables (type
/// 1) by the markers with ids 4 to 7, top row 4 and 5, bottom row 6 and 7.
pub open spec fn recognised(ms: Seq<MarkerView>) -> Seq<(i32, (i32, i32, i32, i32))> {
    let results = select(ms, id_in(ids4(0, 1, 2, 3)));
    let choices = select(ms, id_in(ids4(4, 5, 6, 7)));
    labeled_bounds(marker_regions(results, ids2(0, 1), ids2(2, 3)), 0)
        + labeled_bounds(marker_regions(choices, ids2(4, 5), ids2(6, 7)), 1)
}

/// A list of ids.
fn id_list(ids: &[i32]) -> (v: Vec<i32>)
    ensures
        v@ == ids@,
{
    let mut v: Vec<i32> = Vec::new();
    let mut i: usize = 0;
    while i < ids.len()
        invariant
            0 <= i <= ids@.len(),
            v@ == ids@.take(i as int),
        decreases ids@.len() - i,
    {
        v.push(ids[i]);
        assert(v@ =~= ids@.take(i + 1));
        i = i + 1;
    }
    assert(ids@.take(ids@.len() as int) =~= ids@);
    v
}

/// Pushes the labelled bounds of the regions that have them.
fn push_labeled(out: &mut Vec<(i32, (i32, i32, i32, i32))>, regions: &Vec<Vec<Marker>>, label: i32)
    ensures
        final(out)@ == old(out)@ + labeled_bounds(groups_view(regions@), label),
{
    let ghost g = groups_view(regions@);
    let ghost base = out@;
    let mut i: usize = 0;
    while i < regions.len()
        invariant
            g == groups_view(regions@),
            0 <= i <= regions@.len(),
            out@ == base + labeled_bounds(g.take(i as int), label),
        decreases regions@.len() - i,
    {
        assert(g.take(i + 1).drop_last() =~= g.take(i as int));
        assert(g.take(i + 1).last() == mviews(regions@[i as int]@));
        match extract_region_boundaries(regions[i].as_slice()) {
            Some(b) => {
                out.push((label, b));
                assert(out@ =~= base + labeled_bounds(g.take(i + 1), label));
            },
            None => {},
        }
        i = i + 1;
    }
    assert(g.take(regions@.len() as int) =~= g);
}

/// Finds the tables framed by the markers: regions of the results markers
/// (ids 0 to 3) give tables of type 0, regions of the choices markers (ids 4
/// to 7) tables of type 1, each with the inner rectangle of its region.
pub fn recognise_markers(markers: &[Marker]) -> (found: Vec<(i32, (i32, i32, i32, i32))>)
    requires
        markers_ok(mviews(markers@)),
    ensures
        found@ == recognised(mviews(markers@)),
{
    let ghost ms = mviews(markers@);
    let results_ids = id_list(&[0, 1, 2, 3]);
    let choices_ids = id_list(&[4, 5, 6, 7]);
    assert(results_ids@ =~= ids4(0, 1, 2, 3));
    assert(choices_ids@ =~= ids4(4, 5, 6, 7));
    let results_pool = select_ids(markers, results_ids.as_slice());
    let choices_pool = select_ids(markers, choices_ids.as_slice());
    proof {
        lemma_select_ok(ms, id_in(ids4(0, 1, 2, 3)));
        lemma_select_ok(ms, id_in(ids4(4, 5, 6, 7)));
    }
    let top_results = id_list(&[0, 1]);
    let bottom_results = id_list(&[2, 3]);
    let top_choices = id_list(&[4, 5]);
    let bottom_choices = id_list(&[6, 7]);
    assert(top_results@ =~= ids2(0, 1));
    assert(bottom_results@ =~= ids2(2, 3));
    assert(top_choices@ =~= ids2(4, 5));
    assert(bottom_choices@ =~= ids2(6, 7));
    let results_regions = group_regions(results_pool.as_slice(), top_results.as_slice(), bottom_results.as_slice());
    let choices_regions = group_regions(choices_pool.as_slice(), top_choices.as_slice(), bottom_choices.as_slice());
    let mut found: Vec<(i32, (i32, i32, i32, i32))> = Vec::new();
    push_labeled(&mut found, &results_regions, 0);
    push_labeled(&mut found, &choices_regions, 1);
    assert(found@ =~= recognised(ms));
    found
}

/// The location of a table from its type and inner rectangle `(x1, x2, y1, y2)`.
pub open spec fn table_location(t: (i32, (i32, i32, i32, i32))) -> TableLocation {
    let (table_type, (x1, x2, y1, y2)) = t;
    TableLocation {
        table_type,
        x: x1 as u32,
        y: y1 as u32,
        width: (x2 - x1) as u32,
        height: (y2 - y1) as u32,
    }
}

/// Labelled bounds have non-negative, non-empty rectangles.
proof fn lemma_labeled_bounds_sane(rs: Seq<Seq<MarkerView>>, label: i32)
    ensures
        forall|i: int| 0 <= i < labeled_bounds(rs, label).len() ==> {
            let b = (#[trigger] labeled_bounds(rs, label)[i]).1;
            0 <= b.0 < b.1 && 0 <= b.2 < b.3 && labeled_bounds(rs, label)[i].0 == label
        },
    decreases rs.len(),
{
    if rs.len() > 0 {
        lemma_labeled_bounds_sane(rs.drop_last(), label);
        lemma_edge_i32(0, rs.last());
        lemma_edge_i32(1, rs.last());
        lemma_edge_i32(2, rs.last());
        lemma_edge_i32(3, rs.last());
        let before = labeled_bounds(rs.drop_last(), label);
        let all = labeled_bounds(rs, label);
        assert forall|i: int| 0 <= i < all.len() implies {
            let b = (#[trigger] all[i]).1;
            0 <= b.0 < b.1 && 0 <= b.2 < b.3 && all[i].0 == label
        } by {
            if i < before.len() {
                assert(all[i] == before[i]);
            } else {
                let l = edge(0, rs.last());
                assert(region_bounds(rs.last()) is Some);
            }
        }
    }
}

/// The locations of the tables framed by the markers, as `recognise_markers`
/// finds them: the top-left corner of each inner rectangle and its size.
pub fn locate_tables(markers: &[Marker]) -> (locs: Vec<TableLocation>)
    requires
        markers_ok(mviews(markers@)),
    ensures
        locs@ == recognised(mviews(markers@)).map_values(|t: (i32, (i32, i32, i32, i32))| table_location(t)),
        forall|i: int| 0 <= i < locs@.len() ==> (#[trigger] locs@[i]).table_type == 0 || locs@[i].table_type == 1,
        forall|i: int| 0 <= i < locs@.len() ==> (#[trigger] locs@[i]).width > 0 && locs@[i].height > 0,
{
    let regions = recognise_markers(markers);
    let ghost rec = recognised(mviews(markers@));
    proof {
        let results = select(mviews(markers@), id_in(ids4(0, 1, 2, 3)));
        let choices = select(mviews(markers@), id_in(ids4(4, 5, 6, 7)));
        lemma_labeled_bounds_sane(marker_regions(results, ids2(0, 1), ids2(2, 3)), 0);
        lemma_labeled_bounds_sane(marker_regions(choices, ids2(4, 5), ids2(6, 7)), 1);
        assert forall|i: int| 0 <= i < rec.len() implies {
            let b = (#[trigger] rec[i]).1;
            0 <= b.0 < b.1 && 0 <= b.2 < b.3 && (rec[i].0 == 0 || rec[i].0 == 1)
        } by {
            let n0 = labeled_bounds(marker_regions(results, ids2(0, 1), ids2(2, 3)), 0).len();
            if i >= n0 {
                assert(rec[i] == labeled_bounds(marker_regions(choices, ids2(4, 5), ids2(6, 7)), 1)[i - n0]);
            }
        }
    }
    let mut locs: Vec<TableLocation> = Vec::new();
    let mut i: usize = 0;
    while i < regions.len()
        invariant
            regions@ == rec,
            forall|k: int| 0 <= k < rec.len() ==> {
                let b = (#[trigger] rec[k]).1;
                0 <= b.0 < b.1 && 0 <= b.2 < b.3 && (rec[k].0 == 0 || rec[k].0 == 1)
            },
            0 <= i <= regions@.len(),
            locs@ == rec.take(i as int).map_values(|t: (i32, (i32, i32, i32, i32))| table_location(t)),
        decreases regions@.len() - i,
    {
        let (table_type, (x1, x2, y1, y2)) = regions[i];
        assert(0 <= x1 < x2 && 0 <= y1 < y2) by {
            assert(rec[i as int] == (table_type, (x1, x2, y1, y2)));
        }
        locs.push(TableLocation {
            table_type,
            x: x1 as u32,
            y: y1 as u32,
            width: (x2 - x1) as u32,
            height: (y2 - y1) as u32,
        });
        assert(locs@ =~= rec.take(i + 1).map_values(|t: (i32, (i32, i32, i32, i32))| table_location(t)));
        i = i + 1;
    }
    assert(rec.take(regions@.len() as int) =~= rec);
    assert forall|i: int| 0 <= i < locs@.len() implies (#[trigger] locs@[i]).table_type == 0 || locs@[i].table_type == 1 by {
        assert(locs@[i] == table_location(rec[i]));
    }
    assert forall|i: int| 0 <= i < locs@.len() implies (#[trigger] locs@[i]).width > 0 && locs@[i].height > 0 by {
        assert(locs@[i] == table_location(rec[i]));
    }
    locs
}


/// Whether a value fits in `i32`.
pub open spec fn fits_i32(v: int) -> bool {
    i32::MIN <= v <= i32::MAX
}

/// The eight products of the shoelace sum of a quadrilateral, in the order in
/// which they are evaluated (added and subtracted in turn).
pub open spec fn shoelace_products(p: Seq<Point>) -> Seq<int> {
    seq![
        p[0].x * p[1].y, p[1].x * p[0].y,
        p[1].x * p[2].y, p[2].x * p[1].y,
        p[2].x * p[3].y, p[3].x * p[2].y,
        p[3].x * p[0].y, p[0].x * p[3].y,
    ]
}

/// The running value of the shoelace sum after its first `k` products.
pub open spec fn shoelace_partial(p: Seq<Point>, k: int) -> int
    decreases k,
{
    if k <= 0 {
        0
    } else if k % 2 == 1 {
        shoelace_partial(p, k - 1) + shoelace_products(p)[k - 1]
    } else {
        shoelace_partial(p, k - 1) - shoelace_products(p)[k - 1]
    }
}

/// Twice the signed area of the quadrilateral formed by the first four points:
/// `x0*y1 - x1*y0 + x1*y2 - x2*y1 + x2*y3 - x3*y2 + x3*y0 - x0*y3`.
pub open spec fn shoelace(p: Seq<Point>) -> int {
    shoelace_partial(p, 8)
}

/// The shoelace sum can be evaluated in `i32`: every product and every partial
/// sum fits, and so does the absolute value of the result.
pub open spec fn shoelace_fits(p: Seq<Point>) -> bool {
    &&& p.len() >= 4
    &&& forall|k: int| 0 <= k < 8 ==> fits_i32(#[trigger] shoelace_products(p)[k])
    &&& forall|k: int| 0 <= k <= 8 ==> fits_i32(#[trigger] shoelace_partial(p, k))
    &&& shoelace(p) != i32::MIN
}

/// Twice the area of the quadrilateral formed by the first four points of a
/// marker outline (the absolute value of the shoelace sum).
pub fn calc_area_doubled(p: &[Point]) -> (a: u32)
    requires
        shoelace_fits(p@),
    ensures
        a == abs(shoelace(p@)),
{
    let ghost q = p@;
    let ghost pr = shoelace_products(q);
    assert(pr[0] == q[0].x * q[1].y && pr[1] == q[1].x * q[0].y && pr[2] == q[1].x * q[2].y && pr[3] == q[2].x * q[1].y);
    assert(pr[4] == q[2].x * q[3].y && pr[5] == q[3].x * q[2].y && pr[6] == q[3].x * q[0].y && pr[7] == q[0].x * q[3].y);
    assert(fits_i32(pr[0]) && fits_i32(pr[1]) && fits_i32(pr[2]) && fits_i32(pr[3]));
    assert(fits_i32(pr[4]) && fits_i32(pr[5]) && fits_i32(pr[6]) && fits_i32(pr[7]));
    assert(fits_i32(shoelace_partial(q, 1)) && fits_i32(shoelace_partial(q, 2)));
    assert(fits_i32(shoelace_partial(q, 3)) && fits_i32(shoelace_partial(q, 4)));
    assert(fits_i32(shoelace_partial(q, 5)) && fits_i32(shoelace_partial(q, 6)));
    assert(fits_i32(shoelace_partial(q, 7)) && fits_i32(shoelace_partial(q, 8)));
    assert(shoelace_partial(q, 0) == 0);
    assert(shoelace_partial(q, 1) == pr[0]);
    assert(shoelace_partial(q, 2) == pr[0] - pr[1]);
    assert(shoelace_partial(q, 3) == pr[0] - pr[1] + pr[2]);
    let s1 = p[0].x * p[1].y;
    let s2 = s1 - p[1].x * p[0].y;
    let s3 = s2 + p[1].x * p[2].y;
    let s4 = s3 - p[2].x * p[1].y;
    let s5 = s4 + p[2].x * p[3].y;
    let s6 = s5 - p[3].x * p[2].y;
    let s7 = s6 + p[3].x * p[0].y;
    let s = s7 - p[0].x * p[3].y;
    if s < 0 { (-s) as u32 } else { s as u32 }
}

/// Whether a marker outline encloses more than 1000 square pixels, the least
/// area of a marker.
pub fn is_large_enough(p: &[Point]) -> (r: bool)
    requires
        shoelace_fits(p@),
    ensures
        r == (abs(shoelace(p@)) > 2000),
{
    calc_area_doubled(p) > 2000
}

/// The points of a border as `Point`s.
pub open spec fn points_of(border: Seq<(i32, i32)>) -> Seq<Point> {
    border.map_values(|q: (i32, i32)| Point { x: q.0, y: q.1 })
}

/// The borders of the foreground regions of a binarised page, each as the
/// list of its points, in the order in which the border following finds them.
/// The sides of the page must fit in `i32`, as the point coordinates do.
pub fn marker_outlines(img: &GrayGrid) -> (outlines: Vec<Vec<Point>>)
    requires
        img.wf(),
        img.width <= i32::MAX,
        img.height <= i32::MAX,
    ensures
        outlines@.map_values(|o: Vec<Point>| o@) == contours_of(img.width, img.height, img.pixels@).map_values(
            |b: Seq<(i32, i32)>| points_of(b),
        ),
{
    let borders = find_contours(img);
    let ghost c = contours_of(img.width, img.height, img.pixels@);
    let mut outlines: Vec<Vec<Point>> = Vec::new();
    let mut i: usize = 0;
    while i < borders.len()
        invariant
            borders.deep_view() == c,
            0 <= i <= borders@.len(),
            outlines@.len() == i,
            forall|k: int| 0 <= k < i ==> (#[trigger] outlines@[k])@ == points_of(c[k]),
        decreases borders@.len() - i,
    {
        let border = &borders[i];
        assert(border.deep_view() == c[i as int]);
        let mut pts: Vec<Point> = Vec::new();
        let mut j: usize = 0;
        while j < border.len()
            invariant
                border.deep_view() == c[i as int],
                0 <= j <= border@.len(),
                pts@ == points_of(c[i as int]).take(j as int),
            decreases border@.len() - j,
        {
            let (x, y) = border[j];
            pts.push(Point { x, y });
            assert(pts@ =~= points_of(c[i as int]).take(j + 1));
            j = j + 1;
        }
        assert(pts@ =~= points_of(c[i as int]));
        outlines.push(pts);
        i = i + 1;
    }
    assert(outlines@.map_values(|o: Vec<Point>| o@) =~= c.map_values(|b: Seq<(i32, i32)>| points_of(b)));
    outlines
}

/// The product of two `i32` values, computed in `i64`.
fn mul_wide(a: i32, b: i32) -> (r: i64)
    ensures
        r == a * b,
{
    proof {
        assert(-4611686018427387904 <= a * b <= 4611686018427387904) by (nonlinear_arith)
            requires
                -2147483648 <= a <= 2147483647,
                -2147483648 <= b <= 2147483647,
        ;
    }
    (a as i64) * (b as i64)
}

/// Whether the shoelace sum of an outline can be evaluated in `i32` (see `shoelace_fits`).
fn shoelace_in_range(p: &[Point]) -> (ok: bool)
    ensures
        ok == shoelace_fits(p@),
{
    if p.len() < 4 {
        return false;
    }
    let ghost q = p@;
    let mut prods: Vec<i64> = Vec::new();
    prods.push(mul_wide(p[0].x, p[1].y));
    prods.push(mul_wide(p[1].x, p[0].y));
    prods.push(mul_wide(p[1].x, p[2].y));
    prods.push(mul_wide(p[2].x, p[1].y));
    prods.push(mul_wide(p[2].x, p[3].y));
    prods.push(mul_wide(p[3].x, p[2].y));
    prods.push(mul_wide(p[3].x, p[0].y));
    prods.push(mul_wide(p[0].x, p[3].y));
    assert(prods@.len() == 8);
    assert forall|k: int| 0 <= k < 8 implies prods@[k] == #[trigger] shoelace_products(q)[k] by {}
    let mut k: usize = 0;
    while k < 8
        invariant
            prods@.len() == 8,
            q == p@,
            forall|j: int| 0 <= j < 8 ==> prods@[j] == #[trigger] shoelace_products(q)[j],
            0 <= k <= 8,
            forall|j: int| 0 <= j < k ==> fits_i32(#[trigger] shoelace_products(q)[j]),
        decreases 8 - k,
    {
        if prods[k] < i32::MIN as i64 || prods[k] > i32::MAX as i64 {
            assert(!fits_i32(shoelace_products(q)[k as int]));
            return false;
        }
        k = k + 1;
    }
    let mut acc: i64 = 0;
    let mut k: usize = 0;
    while k < 8
        invariant
            prods@.len() == 8,
            q == p@,
            forall|j: int| 0 <= j < 8 ==> prods@[j] == #[trigger] shoelace_products(q)[j],
            forall|j: int| 0 <= j < 8 ==> fits_i32(#[trigger] shoelace_products(q)[j]),
            0 <= k <= 8,
            acc == shoelace_partial(q, k as int),
            forall|j: int| 0 <= j <= k ==> fits_i32(#[trigger] shoelace_partial(q, j)),
        decreases 8 - k,
    {
        assert(fits_i32(shoelace_products(q)[k as int]));
        if k % 2 == 0 {
            acc = acc + prods[k];
        } else {
            acc = acc - prods[k];
        }
        assert(acc == shoelace_partial(q, k + 1));
        if acc < i32::MIN as i64 || acc > i32::MAX as i64 {
            return false;
        }
        k = k + 1;
    }
    acc != i32::MIN as i64
}

/// Whether an outline is taken for a marker: it has four corners and encloses
/// more than 1000 square pixels; `None` where its area cannot be computed in `i32`.
pub fn is_marker_candidate(poly: &[Point]) -> (r: Option<bool>)
    ensures
        r == (if poly@.len() != 4 {
            Some(false)
        } else if shoelace_fits(poly@) {
            Some(abs(shoelace(poly@)) > 2000)
        } else {
            None::<bool>
        }),
{
    if poly.len() != 4 {
        return Some(false);
    }
    if !shoelace_in_range(poly) {
        return None;
    }
    Some(is_large_enough(poly))
}

/// The centre of a marker's corners as a point.
pub open spec fn center_point(c: Seq<Point>) -> Point {
    Point { x: center(c).0 as i32, y: center(c).1 as i32 }
}

/// The centres of the markers, in order.
pub open spec fn centers(ms: Seq<MarkerView>) -> Seq<Point> {
    Seq::new(ms.len(), |i: int| center_point(ms[i].0))
}

/// Points ordered by height; points of equal height keep their order.
pub open spec fn sorted_points(ps: Seq<Point>) -> Seq<Point> {
    let order = stable_order(Seq::new(ps.len(), |i: int| ps[i].y as i64));
    Seq::new(order.len(), |i: int| ps[order[i] as int])
}

/// The centres of the markers with one id, ordered by height.
pub open spec fn sorted_centers(ms: Seq<MarkerView>, id: i32) -> Seq<Point> {
    sorted_points(centers(select(ms, id_in(seq![id]))))
}

/// The centres of the markers with ids `l` and `r`, each ordered by height,
/// paired up in order as far as both lists go.
pub open spec fn paired_centers(ms: Seq<MarkerView>, l: i32, r: i32) -> Seq<(Point, Point)> {
    let left = sorted_centers(ms, l);
    let right = sorted_centers(ms, r);
    Seq::new(if left.len() <= right.len() { left.len() } else { right.len() }, |i: int| (left[i], right[i]))
}

/// The pairs of marker centres whose slope gives the skew of the page: those of
/// markers 0 and 1, 2 and 3, 4 and 5, and 6 and 7 (markers that sit side by
/// side in print).
pub open spec fn skew_pairs_of(ms: Seq<MarkerView>) -> Seq<(Point, Point)> {
    paired_centers(ms, 0, 1) + paired_centers(ms, 2, 3) + paired_centers(ms, 4, 5) + paired_centers(ms, 6, 7)
}

proof fn lemma_stable_order_len(keys: Seq<i64>)
    ensures
        stable_order(keys).len() == keys.len(),
        forall|k: int| 0 <= k < stable_order(keys).len() ==> #[trigger] stable_order(keys)[k] < keys.len(),
{
    let order = stable_order(keys);
    crate::sorting::lemma_key_then_index_total(keys);
    crate::sorting::indices(keys.len()).lemma_sort_by_ensures(crate::sorting::key_then_index(keys));
    vstd::seq_lib::to_multiset_len(crate::sorting::indices(keys.len()));
    vstd::seq_lib::to_multiset_len(order);
    assert forall|k: int| 0 <= k < order.len() implies #[trigger] order[k] < keys.len() by {
        assert(order.contains(order[k]));
        vstd::seq_lib::to_multiset_contains(order, order[k]);
        vstd::seq_lib::to_multiset_contains(crate::sorting::indices(keys.len()), order[k]);
        let i = choose|i: int| 0 <= i < crate::sorting::indices(keys.len()).len() && crate::sorting::indices(keys.len())[i] == order[k];
    }
}

/// The centres of the markers with the given id, ordered by height.
fn sorted_centers_of(markers: &[Marker], id: i32) -> (ps: Vec<Point>)
    requires
        markers_ok(mviews(markers@)),
    ensures
        ps@ == sorted_centers(mviews(markers@), id),
{
    let ghost ms = mviews(markers@);
    let ids = id_list(&[id]);
    assert(ids@ =~= seq![id]);
    let chosen = select_ids(markers, ids.as_slice());
    proof {
        lemma_select_ok(ms, id_in(seq![id]));
    }
    let ghost sel = mviews(chosen@);
    let mut pts: Vec<Point> = Vec::new();
    let mut keys: Vec<i64> = Vec::new();
    let mut i: usize = 0;
    while i < chosen.len()
        invariant
            sel == mviews(chosen@),
            markers_ok(sel),
            0 <= i <= chosen@.len(),
            pts@ == centers(sel).take(i as int),
            keys@ == Seq::new(i as nat, |k: int| centers(sel)[k].y as i64),
        decreases chosen@.len() - i,
    {
        assert(sel[i as int] == mview(chosen@[i as int]));
        assert(corners_ok(sel[i as int].0));
        proof {
            lemma_center_bounded(sel[i as int].0);
        }
        let c = get_marker_center(chosen[i].0.as_slice());
        pts.push(c);
        keys.push(c.y as i64);
        assert(pts@ =~= centers(sel).take(i + 1));
        assert(keys@ =~= Seq::new((i + 1) as nat, |k: int| centers(sel)[k].y as i64));
        i = i + 1;
    }
    let ghost cs = centers(sel);
    assert(pts@ =~= cs);
    assert(keys@ =~= Seq::new(cs.len(), |k: int| cs[k].y as i64));
    let order = sort_indices_by_key(&keys);
    let mut sorted: Vec<Point> = Vec::new();
    let mut j: usize = 0;
    while j < order.len()
        invariant
            pts@ == cs,
            order@.len() == keys@.len(),
            keys@.len() == cs.len(),
            order@ == stable_order(Seq::new(cs.len(), |k: int| cs[k].y as i64)),
            forall|k: int| 0 <= k < order@.len() ==> #[trigger] order@[k] < keys@.len(),
            0 <= j <= order@.len(),
            sorted@ == sorted_points(cs).take(j as int),
        decreases order@.len() - j,
    {
        sorted.push(pts[order[j]]);
        assert(sorted@ =~= sorted_points(cs).take(j + 1));
        j = j + 1;
    }
    assert(sorted@ =~= sorted_points(cs));
    sorted
}

/// Pushes the pairs of centres of the markers with ids `l` and `r`.
fn push_pairs(out: &mut Vec<(Point, Point)>, markers: &[Marker], l: i32, r: i32)
    requires
        markers_ok(mviews(markers@)),
    ensures
        final(out)@ == old(out)@ + paired_centers(mviews(markers@), l, r),
{
    let left = sorted_centers_of(markers, l);
    let right = sorted_centers_of(markers, r);
    let n = if left.len() <= right.len() { left.len() } else { right.len() };
    let ghost base = out@;
    let ghost pairs = paired_centers(mviews(markers@), l, r);
    let mut i: usize = 0;
    while i < n
        invariant
            n <= left@.len(),
            n <= right@.len(),
            pairs == paired_centers(mviews(markers@), l, r),
            left@ == sorted_centers(mviews(markers@), l),
            right@ == sorted_centers(mviews(markers@), r),
            pairs.len() == n,
            0 <= i <= n,
            out@ == base + pairs.take(i as int),
        decreases n - i,
    {
        out.push((left[i], right[i]));
        assert(out@ =~= base + pairs.take(i + 1));
        i = i + 1;
    }
    assert(pairs.take(n as int) =~= pairs);
}

/// The pairs of marker centres whose slopes give the skew of the page: for
/// each pair of ids (0, 1), (2, 3), (4, 5) and (6, 7), the centres of the
/// markers with each id, ordered by height, paired up in order.
pub fn skew_pairs(markers: &[Marker]) -> (pairs: Vec<(Point, Point)>)
    requires
        markers_ok(mviews(markers@)),
    ensures
        pairs@ == skew_pairs_of(mviews(markers@)),
{
    let mut pairs: Vec<(Point, Point)> = Vec::new();
    push_pairs(&mut pairs, markers, 0, 1);
    push_pairs(&mut pairs, markers, 2, 3);
    push_pairs(&mut pairs, markers, 4, 5);
    push_pairs(&mut pairs, markers, 6, 7);
    assert(pairs@ =~= skew_pairs_of(mviews(markers@)));
    pairs
}


proof fn lemma_cluster_state_flatten(s: Seq<MarkerView>, k: int)
    requires
        1 <= k <= s.len(),
    ensures
        cluster_state(s, k).0.flatten() + cluster_state(s, k).1 == s.take(k),
    decreases k,
{
    broadcast use vstd::seq::Seq::lemma_flatten_push;
    if k == 1 {
        assert(cluster_state(s, 1).0.flatten() =~= Seq::<MarkerView>::empty());
        assert(s.take(1) =~= seq![s[0]]);
        assert(cluster_state(s, k).0.flatten() + cluster_state(s, k).1 =~= s.take(k));
    } else {
        lemma_cluster_state_flatten(s, k - 1);
        let (closed, current) = cluster_state(s, k - 1);
        assert(s.take(k) =~= s.take(k - 1).push(s[k - 1]));
        if abs(center_y(s[k - 1]) - avg_y(current)) < Y_THRESHOLD {
            assert(closed.flatten() + current.push(s[k - 1]) =~= (closed.flatten() + current).push(s[k - 1]));
        } else {
            assert(closed.push(current).flatten() =~= closed.flatten() + current);
            assert(closed.push(current).flatten() + seq![s[k - 1]] =~= s.take(k));
        }
    }
}

/// Grouping into rows loses and repeats no marker: the rows, read one after the
/// other, are all the markers ordered by height, and that order is a
/// permutation of the markers.
pub proof fn lemma_rows_partition(ms: Seq<MarkerView>)
    ensures
        cluster_rows(ms).flatten() == sorted_by_center(ms),
        stable_order(center_keys(ms)).to_multiset() == crate::sorting::indices(ms.len()).to_multiset(),
        sorted_by_center(ms) == stable_order(center_keys(ms)).map_values(|i: usize| ms[i as int]),
{
    broadcast use vstd::seq::Seq::lemma_flatten_push;
    let keys = center_keys(ms);
    lemma_stable_order_len(keys);
    crate::sorting::lemma_key_then_index_total(keys);
    crate::sorting::indices(keys.len()).lemma_sort_by_ensures(crate::sorting::key_then_index(keys));
    let s = sorted_by_center(ms);
    if s.len() > 0 {
        lemma_cluster_state_flatten(s, s.len() as int);
        assert(s.take(s.len() as int) =~= s);
    } else {
        assert(cluster_rows(ms) =~= Seq::<Seq<MarkerView>>::empty());
        assert(cluster_rows(ms).flatten() =~= s);
    }
    assert(s =~= stable_order(keys).map_values(|i: usize| ms[i as int]));
}

/// A region's rectangle, when it has one, starts at non-negative coordinates
/// and is not empty.
pub proof fn lemma_region_bounds_nonempty(ms: Seq<MarkerView>)
    ensures
        region_bounds(ms) matches Some(b) ==> 0 <= b.0 < b.1 && 0 <= b.2 < b.3,
{
    lemma_edge_i32(0, ms);
    lemma_edge_i32(1, ms);
    lemma_edge_i32(2, ms);
    lemma_edge_i32(3, ms);
}

/// Every selected marker passes the selection.
proof fn lemma_select_sat(ms: Seq<MarkerView>, sel: spec_fn(i32) -> bool)
    ensures
        forall|j: int| 0 <= j < select(ms, sel).len() ==> sel(#[trigger] select(ms, sel)[j].1),
    decreases ms.len(),
{
    if ms.len() > 0 {
        lemma_select_sat(ms.drop_last(), sel);
        assert forall|j: int| 0 <= j < select(ms, sel).len() implies sel(#[trigger] select(ms, sel)[j].1) by {
            if j < select(ms.drop_last(), sel).len() {
                assert(select(ms, sel)[j] == select(ms.drop_last(), sel)[j]);
            }
        }
    }
}

/// `q` is the centre of a marker with id `id`.
pub open spec fn center_of_id(ms: Seq<MarkerView>, id: i32, q: Point) -> bool {
    exists|a: int| 0 <= a < ms.len() && ms[a].1 == id && q == center_point(#[trigger] ms[a].0)
}

/// Each of the height-ordered centres for one id is the centre of a marker with that id.
proof fn lemma_sorted_centers_from(ms: Seq<MarkerView>, id: i32)
    ensures
        forall|i: int| 0 <= i < sorted_centers(ms, id).len() ==> center_of_id(ms, id, #[trigger] sorted_centers(ms, id)[i]),
{
    let sel = select(ms, id_in(seq![id]));
    let ps = centers(sel);
    let keys = Seq::new(ps.len(), |i: int| ps[i].y as i64);
    lemma_stable_order_len(keys);
    lemma_select_from(ms, id_in(seq![id]));
    lemma_select_sat(ms, id_in(seq![id]));
    let order = stable_order(keys);
    assert forall|i: int| 0 <= i < sorted_centers(ms, id).len() implies center_of_id(ms, id, #[trigger] sorted_centers(ms, id)[i]) by {
        let o = order[i] as int;
        assert(0 <= o < sel.len());
        assert(sorted_centers(ms, id)[i] == ps[o]);
        assert(ms.contains(sel[o]));
        let a = choose|a: int| 0 <= a < ms.len() && ms[a] == sel[o];
        assert(id_in(seq![id])(sel[o].1));
        assert(seq![id].contains(sel[o].1));
        let c = choose|c: int| 0 <= c < seq![id].len() && seq![id][c] == sel[o].1;
        assert(c == 0);
        assert(sel[o].1 == id);
        assert(ps[o] == center_point(sel[o].0));
        assert(0 <= a < ms.len() && ms[a].1 == id && sorted_centers(ms, id)[i] == center_point(ms[a].0));
    }
}

/// The pair `q` runs from the centre of a marker with id `l` to the centre of
/// a marker with id `l + 1`.
pub open spec fn pair_from(ms: Seq<MarkerView>, q: (Point, Point), l: i32) -> bool {
    exists|a: int, b: int|
        0 <= a < ms.len() && 0 <= b < ms.len() && ms[a].1 == l && ms[b].1 == l + 1
            && q.0 == center_point(ms[a].0) && q.1 == center_point(ms[b].0)
}

proof fn lemma_paired_from(ms: Seq<MarkerView>, l: i32, r: i32)
    requires
        r == l + 1,
    ensures
        forall|k: int| 0 <= k < paired_centers(ms, l, r).len() ==>
            pair_from(ms, #[trigger] paired_centers(ms, l, r)[k], l),
{
    lemma_sorted_centers_from(ms, l);
    lemma_sorted_centers_from(ms, r);
    let pc = paired_centers(ms, l, r);
    assert forall|k: int| 0 <= k < pc.len() implies pair_from(ms, #[trigger] pc[k], l) by {
        let left = sorted_centers(ms, l);
        let right = sorted_centers(ms, r);
        assert(pc[k] == (left[k], right[k]));
        assert(left[k] == sorted_centers(ms, l)[k]);
        assert(right[k] == sorted_centers(ms, r)[k]);
        assert(center_of_id(ms, l, sorted_centers(ms, l)[k]));
        assert(center_of_id(ms, r, sorted_centers(ms, r)[k]));
        let a = choose|a: int| 0 <= a < ms.len() && ms[a].1 == l && sorted_centers(ms, l)[k] == center_point(#[trigger] ms[a].0);
        let b = choose|b: int| 0 <= b < ms.len() && ms[b].1 == r && sorted_centers(ms, r)[k] == center_point(#[trigger] ms[b].0);
        assert(0 <= a < ms.len() && 0 <= b < ms.len() && ms[a].1 == l && ms[b].1 == l + 1
            && pc[k].0 == center_point(ms[a].0) && pc[k].1 == center_point(ms[b].0));
    }
}

/// Every pair measured for the skew runs from the centre of a left-hand
/// marker of a side-by-side pair (id 0, 2, 4 or 6) to the centre of its
/// right-hand partner (the id one above), so on a level page it runs left to
/// right.
pub proof fn lemma_skew_pairs_left_to_right(ms: Seq<MarkerView>)
    ensures
        forall|k: int| 0 <= k < skew_pairs_of(ms).len() ==> {
            let q = #[trigger] skew_pairs_of(ms)[k];
            pair_from(ms, q, 0) || pair_from(ms, q, 2) || pair_from(ms, q, 4) || pair_from(ms, q, 6)
        },
{
    lemma_paired_from(ms, 0, 1);
    lemma_paired_from(ms, 2, 3);
    lemma_paired_from(ms, 4, 5);
    lemma_paired_from(ms, 6, 7);
    let p0 = paired_centers(ms, 0, 1);
    let p2 = paired_centers(ms, 2, 3);
    let p4 = paired_centers(ms, 4, 5);
    let p6 = paired_centers(ms, 6, 7);
    let all = skew_pairs_of(ms);
    assert(all == p0 + p2 + p4 + p6);
    assert forall|k: int| 0 <= k < all.len() implies {
        let q = #[trigger] all[k];
        pair_from(ms, q, 0) || pair_from(ms, q, 2) || pair_from(ms, q, 4) || pair_from(ms, q, 6)
    } by {
        if k < p0.len() {
            assert(all[k] == p0[k]);
            assert(pair_from(ms, p0[k], 0));
        } else if k < p0.len() + p2.len() {
            assert(all[k] == p2[k - p0.len()]);
            assert(pair_from(ms, p2[k - p0.len()], 2));
        } else if k < p0.len() + p2.len() + p4.len() {
            assert(all[k] == p4[k - p0.len() - p2.len()]);
            assert(pair_from(ms, p4[k - p0.len() - p2.len()], 4));
        } else {
            assert(all[k] == p6[k - p0.len() - p2.len() - p4.len()]);
            assert(pair_from(ms, p6[k - p0.len() - p2.len() - p4.len()], 6));
        }
    }
}

/// The region is top row `k` followed by the bottom row nearest below it:
/// among the bottom rows that lie below the top row's mean height, one whose
/// mean height is smallest.
pub open spec fn joins_nearest_row(top: Seq<Seq<MarkerView>>, bottom: Seq<Seq<MarkerView>>, region: Seq<MarkerView>) -> bool {
    exists|k: int, j: int| 0 <= k < top.len() && 0 <= j < bottom.len()
        && region == #[trigger] top[k] + #[trigger] bottom[j]
        && lies_below(avg_y(bottom[j]), avg_y(top[k]))
        && forall|jj: int| 0 <= jj < bottom.len() && lies_below(avg_y(#[trigger] bottom[jj]), avg_y(top[k])) ==>
            avg_y(bottom[j]) <= avg_y(bottom[jj])
}

/// Each region of markers is a top row followed by the bottom row nearest
/// below that same top row: among the bottom rows lying below the top row's
/// mean height, the one whose mean height is smallest.
pub proof fn lemma_regions_join_nearest_row(ms: Seq<MarkerView>, top_ids: Seq<i32>, bottom_ids: Seq<i32>)
    ensures
        forall|r: int| 0 <= r < marker_regions(ms, top_ids, bottom_ids).len() ==> joins_nearest_row(
            cluster_rows(select(ms, id_in(top_ids))),
            cluster_rows(select(ms, id_in(bottom_ids))),
            #[trigger] marker_regions(ms, top_ids, bottom_ids)[r],
        ),
{
    let top = cluster_rows(select(ms, id_in(top_ids)));
    let bottom = cluster_rows(select(ms, id_in(bottom_ids)));
    lemma_regions_upto_nearest(top, bottom, top.len() as int);
    assert(marker_regions(ms, top_ids, bottom_ids) == regions_upto(top, bottom, top.len() as int));
    assert forall|r: int| 0 <= r < marker_regions(ms, top_ids, bottom_ids).len() implies
        joins_nearest_row(top, bottom, #[trigger] marker_regions(ms, top_ids, bottom_ids)[r]) by {
        assert(marker_regions(ms, top_ids, bottom_ids)[r] == regions_upto(top, bottom, top.len() as int)[r]);
    }
}

proof fn lemma_regions_upto_nearest(top: Seq<Seq<MarkerView>>, bottom: Seq<Seq<MarkerView>>, n: int)
    requires
        n <= top.len(),
    ensures
        forall|r: int| 0 <= r < regions_upto(top, bottom, n).len() ==>
            joins_nearest_row(top, bottom, #[trigger] regions_upto(top, bottom, n)[r]),
    decreases n,
{
    if n > 0 {
        lemma_regions_upto_nearest(top, bottom, n - 1);
        let before = regions_upto(top, bottom, n - 1);
        let t = top[n - 1];
        assert forall|r: int| 0 <= r < regions_upto(top, bottom, n).len() implies
            joins_nearest_row(top, bottom, #[trigger] regions_upto(top, bottom, n)[r]) by {
            if r < before.len() {
                assert(regions_upto(top, bottom, n)[r] == before[r]);
                assert(joins_nearest_row(top, bottom, before[r]));
            } else {
                assert(has_row_below(bottom, avg_y(t)));
                let i0 = choose|i: int| 0 <= i < bottom.len() && lies_below(avg_y(#[trigger] bottom[i]), avg_y(t));
                lemma_nearest_exists(bottom, avg_y(t), i0);
                let j = choose|j: int| is_nearest_below(bottom, avg_y(t), j);
                assert(regions_upto(top, bottom, n)[r] == t + bottom[j]);
                assert(top[n - 1] == t);
                assert(is_nearest_below(bottom, avg_y(top[n - 1]), j));
                assert forall|jj: int| 0 <= jj < bottom.len() && lies_below(avg_y(#[trigger] bottom[jj]), avg_y(top[n - 1])) implies
                    avg_y(bottom[j]) <= avg_y(bottom[jj]) by {}
                assert(joins_nearest_row(top, bottom, top[n - 1] + bottom[j]));
            }
        }
    }
}

/// The first of the rows below `t_y` at the smallest distance, among the first `n` rows.
proof fn lemma_nearest_upto(rows: Seq<Seq<MarkerView>>, t_y: int, n: int) -> (j: int)
    requires
        0 < n <= rows.len(),
        exists|i: int| 0 <= i < n && lies_below(avg_y(#[trigger] rows[i]), t_y),
    ensures
        0 <= j < n,
        lies_below(avg_y(rows[j]), t_y),
        forall|i: int| 0 <= i < n && lies_below(avg_y(#[trigger] rows[i]), t_y) ==>
            avg_y(rows[j]) <= avg_y(rows[i]) && (i < j ==> avg_y(rows[j]) < avg_y(rows[i])),
    decreases n,
{
    if exists|i: int| 0 <= i < n - 1 && lies_below(avg_y(#[trigger] rows[i]), t_y) {
        let j0 = lemma_nearest_upto(rows, t_y, n - 1);
        if lies_below(avg_y(rows[n - 1]), t_y) && avg_y(rows[n - 1]) < avg_y(rows[j0]) {
            n - 1
        } else {
            j0
        }
    } else {
        let i = choose|i: int| 0 <= i < n && lies_below(avg_y(#[trigger] rows[i]), t_y);
        assert(i == n - 1);
        n - 1
    }
}

/// Where some row lies below `t_y`, a nearest one does.
proof fn lemma_nearest_exists(rows: Seq<Seq<MarkerView>>, t_y: int, i0: int)
    requires
        0 <= i0 < rows.len(),
        lies_below(avg_y(rows[i0]), t_y),
    ensures
        exists|j: int| is_nearest_below(rows, t_y, j),
{
    let j = lemma_nearest_upto(rows, t_y, rows.len() as int);
    assert(is_nearest_below(rows, t_y, j));
}

/// Some region is top row `k` followed by a bottom row.
pub open spec fn region_of_top_row(regions: Seq<Seq<MarkerView>>, top: Seq<Seq<MarkerView>>, bottom: Seq<Seq<MarkerView>>, k: int) -> bool {
    exists|r: int, j: int| 0 <= r < regions.len() && 0 <= j < bottom.len() && #[trigger] regions[r] == top[k] + #[trigger] bottom[j]
}

proof fn lemma_regions_upto_complete(top: Seq<Seq<MarkerView>>, bottom: Seq<Seq<MarkerView>>, n: int)
    requires
        n <= top.len(),
    ensures
        forall|k: int| 0 <= k < n && has_row_below(bottom, avg_y(#[trigger] top[k])) ==>
            region_of_top_row(regions_upto(top, bottom, n), top, bottom, k),
    decreases n,
{
    if n > 0 {
        lemma_regions_upto_complete(top, bottom, n - 1);
        let before = regions_upto(top, bottom, n - 1);
        let now = regions_upto(top, bottom, n);
        assert forall|k: int| 0 <= k < n && has_row_below(bottom, avg_y(#[trigger] top[k])) implies
            region_of_top_row(now, top, bottom, k) by {
            if k < n - 1 {
                assert(region_of_top_row(before, top, bottom, k));
                let (r, j) = choose|r: int, j: int| 0 <= r < before.len() && 0 <= j < bottom.len()
                    && #[trigger] before[r] == top[k] + #[trigger] bottom[j];
                assert(now[r] == before[r]);
            } else {
                let t = top[n - 1];
                let j = choose|j: int| is_nearest_below(bottom, avg_y(t), j);
                let i0 = choose|i: int| 0 <= i < bottom.len() && lies_below(avg_y(#[trigger] bottom[i]), avg_y(t));
                lemma_nearest_exists(bottom, avg_y(t), i0);
                assert(now[before.len() as int] == t + bottom[j]);
            }
        }
    }
}

/// Every top row with a bottom row below it frames a region: no table whose
/// markers are all found is left out.
pub proof fn lemma_every_framed_row_makes_a_region(ms: Seq<MarkerView>, top_ids: Seq<i32>, bottom_ids: Seq<i32>)
    ensures
        forall|k: int| 0 <= k < cluster_rows(select(ms, id_in(top_ids))).len()
            && has_row_below(cluster_rows(select(ms, id_in(bottom_ids))), avg_y(#[trigger] cluster_rows(select(ms, id_in(top_ids)))[k])) ==>
            region_of_top_row(marker_regions(ms, top_ids, bottom_ids), cluster_rows(select(ms, id_in(top_ids))),
                cluster_rows(select(ms, id_in(bottom_ids))), k),
{
    let top = cluster_rows(select(ms, id_in(top_ids)));
    let bottom = cluster_rows(select(ms, id_in(bottom_ids)));
    lemma_regions_upto_complete(top, bottom, top.len() as int);
}

} // verus!
