//! Locating the cells of an answer table from dark-pixel profiles.

use vstd::prelude::*;
use crate::sorting::{sort_u32, u32_le};
use crate::imaging::{GrayGrid, Raster, raster_wf, raster_at};
use crate::profile::{sum_cols_rows, smoothed, col_profile, row_profile, lemma_profiles_fit, seq_sum, window_sum,
    lemma_seq_sum_nonneg, window_sums_fit, window_lo, window_hi, run_state, longest_run, dark_col, dark_row};

verus! {

/// Entry `i` of the profile lies inside a cell: it is below the grid-line threshold.
pub open spec fn is_open(profile: Seq<u32>, thr: u32, i: int) -> bool {
    profile[i] < thr
}

/// `[s, e)` is a maximal stretch of profile entries below the threshold.
pub open spec fn is_run(profile: Seq<u32>, thr: u32, s: int, e: int) -> bool {
    &&& 0 <= s < e <= profile.len()
    &&& forall|j: int| s <= j < e ==> is_open(profile, thr, j)
    &&& (s == 0 || !is_open(profile, thr, s - 1))
    &&& (e == profile.len() || !is_open(profile, thr, e))
}

/// A maximal stretch that is wide enough to be a cell interior (more than 20 entries).
pub open spec fn is_interior(profile: Seq<u32>, thr: u32, s: int, e: int) -> bool {
    is_run(profile, thr, s, e) && e - s > 20
}

/// The bounds list is exactly the cell interiors of the profile, in increasing order.
pub open spec fn interiors_of(profile: Seq<u32>, thr: u32, b: Seq<(u32, u32)>) -> bool {
    &&& forall|k: int| #![trigger b[k]] 0 <= k < b.len() ==> is_interior(profile, thr, b[k].0 as int, b[k].1 as int)
    &&& forall|k: int, l: int| 0 <= k < l < b.len() ==> #[trigger] b[k].1 < #[trigger] b[l].0
    &&& forall|s: int, e: int| #[trigger] is_interior(profile, thr, s, e) ==>
            exists|k: int| 0 <= k < b.len() && b[k].0 == s && b[k].1 == e
}

/// Finds the interiors of the cells along one axis: the maximal runs of profile
/// entries below `grid_line_thr` that are longer than 20 entries.
pub fn find_cell_interiors(profile: &[u32], grid_line_thr: u32) -> (bounds: Vec<(u32, u32)>)
    requires
        profile@.len() <= u32::MAX,
    ensures
        interiors_of(profile@, grid_line_thr, bounds@),
{
    let mut bounds: Vec<(u32, u32)> = Vec::new();
    let mut inside_cell = false;
    let mut start: u32 = 0;
    let n = profile.len();
    let ghost p = profile@;
    let mut i: usize = 0;
    while i < n
        invariant
            n == p.len(),
            p == profile@,
            n <= u32::MAX,
            0 <= i <= n,
            inside_cell == (i > 0 && is_open(p, grid_line_thr, i - 1)),
            inside_cell ==> {
                &&& start < i
                &&& forall|j: int| start <= j < i ==> is_open(p, grid_line_thr, j)
                &&& (start == 0 || !is_open(p, grid_line_thr, start - 1))
            },
            forall|k: int| #![trigger bounds@[k]] 0 <= k < bounds@.len() ==> {
                &&& is_interior(p, grid_line_thr, bounds@[k].0 as int, bounds@[k].1 as int)
                &&& bounds@[k].1 < i
            },
            forall|k: int, l: int| 0 <= k < l < bounds@.len() ==> #[trigger] bounds@[k].1 < #[trigger] bounds@[l].0,
            forall|s: int, e: int| #[trigger] is_interior(p, grid_line_thr, s, e) && e < i ==>
                exists|k: int| 0 <= k < bounds@.len() && bounds@[k].0 == s && bounds@[k].1 == e,
        decreases n - i,
    {
        let count = profile[i];
        let ghost old_b = bounds@;
        if count < grid_line_thr && !inside_cell {
            inside_cell = true;
            start = i as u32;
        } else if count >= grid_line_thr && inside_cell {
            inside_cell = false;
            let end = i as u32;
            if end - start > 20 {
                proof {
                    assert forall|k: int| 0 <= k < bounds@.len() implies #[trigger] bounds@[k].1 < start by {
                        let e = bounds@[k].1 as int;
                        if e >= start {
                            assert(is_open(p, grid_line_thr, e));
                        }
                    }
                }
                bounds.push((start, end));
            }
            proof {
                assert forall|s: int, e: int| #[trigger] is_interior(p, grid_line_thr, s, e) && e < i + 1 implies
                    exists|k: int| 0 <= k < bounds@.len() && bounds@[k].0 == s && bounds@[k].1 == e by {
                    if e < i {
                        let k = choose|k: int| 0 <= k < old_b.len() && old_b[k].0 == s && old_b[k].1 == e;
                        assert(bounds@[k] == old_b[k]);
                    } else {
                        if s < start {
                            assert(is_open(p, grid_line_thr, start - 1));
                        } else if s > start {
                            assert(is_open(p, grid_line_thr, s - 1));
                        }
                        assert(s == start);
                        assert(bounds@[bounds@.len() - 1].0 == s);
                    }
                }
            }
        } else {
            proof {
                assert forall|s: int, e: int| #[trigger] is_interior(p, grid_line_thr, s, e) && e < i + 1 implies
                    exists|k: int| 0 <= k < bounds@.len() && bounds@[k].0 == s && bounds@[k].1 == e by {
                    if e == i {
                        assert(is_open(p, grid_line_thr, e - 1));
                    }
                }
            }
        }
        i = i + 1;
    }
    let ghost old_b = bounds@;
    if inside_cell {
        let end = n as u32;
        if end - start > 20 {
            proof {
                assert forall|k: int| 0 <= k < bounds@.len() implies #[trigger] bounds@[k].1 < start by {
                    let e = bounds@[k].1 as int;
                    if e >= start {
                        assert(is_open(p, grid_line_thr, e));
                    }
                }
            }
            bounds.push((start, end));
        }
        proof {
            assert forall|s: int, e: int| #[trigger] is_interior(p, grid_line_thr, s, e) implies
                exists|k: int| 0 <= k < bounds@.len() && bounds@[k].0 == s && bounds@[k].1 == e by {
                if e < n {
                    let k = choose|k: int| 0 <= k < old_b.len() && old_b[k].0 == s && old_b[k].1 == e;
                    assert(bounds@[k] == old_b[k]);
                } else {
                    if s < start {
                        assert(is_open(p, grid_line_thr, start - 1));
                    } else if s > start {
                        assert(is_open(p, grid_line_thr, s - 1));
                    }
                    assert(bounds@[bounds@.len() - 1].0 == s);
                }
            }
        }
    } else {
        proof {
            assert forall|s: int, e: int| #[trigger] is_interior(p, grid_line_thr, s, e) implies
                exists|k: int| 0 <= k < bounds@.len() && bounds@[k].0 == s && bounds@[k].1 == e by {
                if e == n {
                    assert(is_open(p, grid_line_thr, e - 1));
                }
            }
        }
    }
    bounds
}



/// What a scan of the first `i` profile entries has found: the interiors that
/// end before `i`, and where the open stretch running at `i` (if any) starts.
pub open spec fn scanned(p: Seq<u32>, thr: u32, i: int, b: Seq<(u32, u32)>, start: int) -> bool {
    &&& (i > 0 && is_open(p, thr, i - 1)) ==> {
        &&& 0 <= start < i
        &&& forall|j: int| start <= j < i ==> is_open(p, thr, j)
        &&& (start == 0 || !is_open(p, thr, start - 1))
    }
    &&& forall|k: int| #![trigger b[k]] 0 <= k < b.len() ==> {
        &&& is_interior(p, thr, b[k].0 as int, b[k].1 as int)
        &&& b[k].1 < i
    }
    &&& forall|k: int, l: int| 0 <= k < l < b.len() ==> #[trigger] b[k].1 < #[trigger] b[l].0
    &&& forall|s: int, e: int| #[trigger] is_interior(p, thr, s, e) && e < i ==>
            exists|k: int| 0 <= k < b.len() && b[k].0 == s && b[k].1 == e
}

/// The interiors that a scan of the first `i` entries finds, step by step.
proof fn lemma_scan(p: Seq<u32>, thr: u32, i: int) -> (r: (Seq<(u32, u32)>, int))
    requires
        0 <= i <= p.len(),
        p.len() <= u32::MAX,
    ensures
        scanned(p, thr, i, r.0, r.1),
    decreases i,
{
    if i == 0 {
        (Seq::empty(), 0)
    } else {
        let (b, start) = lemma_scan(p, thr, i - 1);
        let k = i - 1;
        let inside = k > 0 && is_open(p, thr, k - 1);
        if is_open(p, thr, k) && !inside {
            (b, k)
        } else if !is_open(p, thr, k) && inside {
            if k - start > 20 {
                assert forall|m: int| 0 <= m < b.len() implies #[trigger] b[m].1 < start by {
                    let e = b[m].1 as int;
                    if e >= start {
                        assert(is_open(p, thr, e));
                    }
                }
                let nb = b.push((start as u32, k as u32));
                assert forall|s: int, e: int| #[trigger] is_interior(p, thr, s, e) && e < i implies
                    exists|m: int| 0 <= m < nb.len() && nb[m].0 == s && nb[m].1 == e by {
                    if e < k {
                        let m = choose|m: int| 0 <= m < b.len() && b[m].0 == s && b[m].1 == e;
                        assert(nb[m] == b[m]);
                    } else {
                        if s < start {
                            assert(is_open(p, thr, start - 1));
                        } else if s > start {
                            assert(is_open(p, thr, s - 1));
                        }
                        assert(nb[nb.len() - 1].0 == s);
                    }
                }
                assert forall|m: int| #![trigger nb[m]] 0 <= m < nb.len() implies
                    is_interior(p, thr, nb[m].0 as int, nb[m].1 as int) && nb[m].1 < i by {
                    if m < b.len() {
                        assert(nb[m] == b[m]);
                    }
                }
                assert forall|m: int, l: int| 0 <= m < l < nb.len() implies #[trigger] nb[m].1 < #[trigger] nb[l].0 by {
                    if l < b.len() {
                        assert(nb[m] == b[m] && nb[l] == b[l]);
                    } else {
                        assert(nb[m] == b[m]);
                    }
                }
                (nb, start)
            } else {
                assert forall|s: int, e: int| #[trigger] is_interior(p, thr, s, e) && e < i implies
                    exists|m: int| 0 <= m < b.len() && b[m].0 == s && b[m].1 == e by {
                    if e == k {
                        if s < start {
                            assert(is_open(p, thr, start - 1));
                        } else if s > start {
                            assert(is_open(p, thr, s - 1));
                        }
                    }
                }
                (b, start)
            }
        } else {
            assert forall|s: int, e: int| #[trigger] is_interior(p, thr, s, e) && e < i implies
                exists|m: int| 0 <= m < b.len() && b[m].0 == s && b[m].1 == e by {
                if e == k {
                    assert(is_open(p, thr, e - 1));
                }
            }
            (b, start)
        }
    }
}

/// Every profile has its list of cell interiors.
pub proof fn lemma_interiors_exist(p: Seq<u32>, thr: u32)
    requires
        p.len() <= u32::MAX,
    ensures
        interiors_of(p, thr, cell_interiors(p, thr)),
{
    let n = p.len() as int;
    let (b, start) = lemma_scan(p, thr, n);
    let inside = n > 0 && is_open(p, thr, n - 1);
    if inside && n - start > 20 {
        assert forall|m: int| 0 <= m < b.len() implies #[trigger] b[m].1 < start by {
            let e = b[m].1 as int;
            if e >= start {
                assert(is_open(p, thr, e));
            }
        }
        let nb = b.push((start as u32, n as u32));
        assert forall|s: int, e: int| #[trigger] is_interior(p, thr, s, e) implies
            exists|m: int| 0 <= m < nb.len() && nb[m].0 == s && nb[m].1 == e by {
            if e < n {
                let m = choose|m: int| 0 <= m < b.len() && b[m].0 == s && b[m].1 == e;
                assert(nb[m] == b[m]);
            } else {
                if s < start {
                    assert(is_open(p, thr, start - 1));
                } else if s > start {
                    assert(is_open(p, thr, s - 1));
                }
                assert(nb[nb.len() - 1].0 == s);
            }
        }
        assert forall|m: int| #![trigger nb[m]] 0 <= m < nb.len() implies
            is_interior(p, thr, nb[m].0 as int, nb[m].1 as int) by {
            if m < b.len() {
                assert(nb[m] == b[m]);
            }
        }
        assert forall|m: int, l: int| 0 <= m < l < nb.len() implies #[trigger] nb[m].1 < #[trigger] nb[l].0 by {
            if l < b.len() {
                assert(nb[m] == b[m] && nb[l] == b[l]);
            } else {
                assert(nb[m] == b[m]);
            }
        }
        assert(interiors_of(p, thr, nb));
    } else {
        assert forall|s: int, e: int| #[trigger] is_interior(p, thr, s, e) implies
            exists|m: int| 0 <= m < b.len() && b[m].0 == s && b[m].1 == e by {
            if e == n {
                if inside {
                    if s < start {
                        assert(is_open(p, thr, start - 1));
                    } else if s > start {
                        assert(is_open(p, thr, s - 1));
                    }
                } else {
                    assert(is_open(p, thr, e - 1));
                }
            }
        }
        assert(interiors_of(p, thr, b));
    }
}

/// The largest image side, in pixels, that the cell detection accepts. Up to this
/// size the single-precision ratios that the detection is defined with are exact.
pub const MAX_SIDE: u32 = 4194304;

/// `a - b`, or 0 when `b > a`.
pub open spec fn sat_sub(a: u32, b: u32) -> u32 {
    if a >= b { (a - b) as u32 } else { 0 }
}

/// The width of each bound.
pub open spec fn widths(b: Seq<(u32, u32)>) -> Seq<u32> {
    Seq::new(b.len(), |k: int| sat_sub(b[k].1, b[k].0))
}

/// The gap between each bound and the next.
pub open spec fn gaps(b: Seq<(u32, u32)>) -> Seq<u32> {
    Seq::new((b.len() - 1) as nat, |k: int| sat_sub(b[k + 1].0, b[k].1))
}

/// The upper median: the element at position `len / 2` once sorted.
pub open spec fn median(s: Seq<u32>) -> u32 {
    s.sort_by(u32_le())[(s.len() / 2) as int]
}

/// `total / perfect` rounded to the nearest integer, halves away from zero;
/// an infinite ratio (`perfect == 0 < total`) saturates at `u32::MAX` and
/// `0 / 0` gives 0.
pub open spec fn expected_cells(total: int, perfect: int) -> int {
    if perfect == 0 {
        if total == 0 { 0 } else { u32::MAX as int }
    } else {
        (2 * total + perfect) / (2 * perfect)
    }
}

/// The number of cells that a bound is taken to span, given the median width and gap.
pub open spec fn cells_spanned(bound: (u32, u32), mw: u32, mg: u32) -> int {
    expected_cells(sat_sub(bound.1, bound.0) + mg, mw + mg)
}

/// A bound is dropped when it is narrower than three quarters of the median width.
pub open spec fn too_narrow(bound: (u32, u32), mw: u32) -> bool {
    sat_sub(bound.1, bound.0) < mw / 4 * 3
}

/// Width of each part when a bound of width `w` is split into `n` cells separated by gaps `mg`.
pub open spec fn split_width(w: int, mg: int, n: int) -> int {
    (w - mg * (n - 1)) / n
}

/// Part `j` of a bound split into `n` cells of width `cw` separated by gaps `mg`.
pub open spec fn split_part(start: int, cw: int, mg: int, j: int) -> (u32, u32) {
    ((start + j * (cw + mg)) as u32, (start + j * (cw + mg) + cw) as u32)
}

/// What a bound becomes: nothing when it is too narrow, `n > 1` equal parts
/// separated by the median gap when it spans `n` cells, and itself otherwise.
pub open spec fn pieces(bound: (u32, u32), mw: u32, mg: u32) -> Seq<(u32, u32)> {
    let w = sat_sub(bound.1, bound.0) as int;
    let n = cells_spanned(bound, mw, mg);
    if too_narrow(bound, mw) {
        Seq::empty()
    } else if n > 1 {
        let cw = split_width(w, mg as int, n);
        Seq::new(n as nat, |j: int| split_part(bound.0 as int, cw, mg as int, j))
    } else {
        seq![bound]
    }
}

/// The pieces of all bounds, in order.
pub open spec fn all_pieces(b: Seq<(u32, u32)>, mw: u32, mg: u32) -> Seq<(u32, u32)>
    decreases b.len(),
{
    if b.len() == 0 {
        Seq::empty()
    } else {
        all_pieces(b.drop_last(), mw, mg) + pieces(b.last(), mw, mg)
    }
}

/// The regularised bounds: with fewer than three bounds nothing changes;
/// otherwise each bound is replaced by its pieces, measured against the median
/// width and the median gap.
pub open spec fn regularized(b: Seq<(u32, u32)>) -> Seq<(u32, u32)> {
    if b.len() < 3 {
        b
    } else {
        all_pieces(b, median(widths(b)), median(gaps(b)))
    }
}

/// Splitting a bound never asks for more gap than the bound is wide.
pub open spec fn split_fits(bound: (u32, u32), mw: u32, mg: u32) -> bool {
    !too_narrow(bound, mw) && cells_spanned(bound, mw, mg) > 1 ==>
        mg * (cells_spanned(bound, mw, mg) - 1) <= sat_sub(bound.1, bound.0)
}

/// Every bound can be split as `regularize_bounds` splits it.
pub open spec fn splits_fit(b: Seq<(u32, u32)>) -> bool {
    b.len() >= 3 ==> forall|k: int| 0 <= k < b.len() ==> #[trigger] split_fits(b[k], median(widths(b)), median(gaps(b)))
}

/// All coordinates of the bounds are within `MAX_SIDE`.
pub open spec fn bounds_in_range(b: Seq<(u32, u32)>) -> bool {
    forall|k: int| 0 <= k < b.len() ==> #[trigger] b[k].0 <= MAX_SIDE && b[k].1 <= MAX_SIDE
}

/// An element of a sorted copy of a sequence is one of its elements.
proof fn lemma_sorted_element_bounded(s: Seq<u32>, i: int, m: u32)
    requires
        0 <= i < s.len(),
        forall|k: int| 0 <= k < s.len() ==> s[k] <= m,
    ensures
        s.sort_by(u32_le())[i] <= m,
{
    crate::sorting::lemma_u32_le_total();
    s.lemma_sort_by_ensures(u32_le());
    let t = s.sort_by(u32_le());
    vstd::seq_lib::to_multiset_len(s);
    vstd::seq_lib::to_multiset_len(t);
    assert(t.to_multiset().contains(t[i])) by {
        vstd::seq_lib::to_multiset_contains(t, t[i]);
    }
    vstd::seq_lib::to_multiset_contains(s, t[i]);
    assert(s.contains(t[i]));
}

proof fn lemma_split_arith(s: int, w: int, mg: int, n: int, j: int)
    requires
        n > 1,
        0 <= j < n,
        0 <= mg,
        0 <= w,
        mg * (n - 1) <= w,
    ensures
        0 <= split_width(w, mg, n),
        0 <= j * (split_width(w, mg, n) + mg),
        j * (split_width(w, mg, n) + mg) + split_width(w, mg, n) + mg <= w + mg,
        (j + 1) * (split_width(w, mg, n) + mg) == j * (split_width(w, mg, n) + mg) + split_width(w, mg, n) + mg,
{
    let cw = split_width(w, mg, n);
    assert(0 <= cw && n * cw <= w - mg * (n - 1)) by (nonlinear_arith)
        requires
            n > 1,
            mg * (n - 1) <= w,
            cw == (w - mg * (n - 1)) / n,
    ;
    assert(0 <= j * (cw + mg)) by (nonlinear_arith)
        requires
            0 <= j,
            0 <= cw,
            0 <= mg,
    ;
    assert((j + 1) * (cw + mg) <= n * (cw + mg)) by (nonlinear_arith)
        requires
            j + 1 <= n,
            0 <= cw,
            0 <= mg,
    ;
    assert(n * (cw + mg) == n * cw + mg * (n - 1) + mg) by (nonlinear_arith);
    assert((j + 1) * (cw + mg) == j * (cw + mg) + cw + mg) by (nonlinear_arith);
}

/// The median width and the median gap of at least three bounds.
fn bound_medians(bounds: &[(u32, u32)]) -> (m: (u32, u32))
    requires
        bounds@.len() >= 3,
        bounds_in_range(bounds@),
    ensures
        m.0 == median(widths(bounds@)),
        m.1 == median(gaps(bounds@)),
        m.0 <= MAX_SIDE,
        m.1 <= MAX_SIDE,
{
    let n = bounds.len();
    let ghost b = bounds@;
    let mut ws: Vec<u32> = Vec::new();
    let mut k: usize = 0;
    while k < n
        invariant
            n == b.len(),
            b == bounds@,
            0 <= k <= n,
            ws@ == widths(b).take(k as int),
        decreases n - k,
    {
        let (s, e) = bounds[k];
        ws.push(if e >= s { e - s } else { 0 });
        proof {
            assert(ws@ =~= widths(b).take(k + 1));
        }
        k = k + 1;
    }
    assert(ws@ =~= widths(b));
    let sorted_ws = sort_u32(&ws);
    let mut gs: Vec<u32> = Vec::new();
    let mut k: usize = 0;
    while k + 1 < n
        invariant
            n == b.len(),
            n >= 3,
            b == bounds@,
            0 <= k <= n - 1,
            gs@ == gaps(b).take(k as int),
        decreases n - k,
    {
        let next_start = bounds[k + 1].0;
        let end = bounds[k].1;
        gs.push(if next_start >= end { next_start - end } else { 0 });
        proof {
            assert(gs@ =~= gaps(b).take(k + 1));
        }
        k = k + 1;
    }
    assert(gs@ =~= gaps(b));
    let sorted_gs = sort_u32(&gs);
    proof {
        crate::sorting::lemma_u32_le_total();
        widths(b).lemma_sort_by_ensures(u32_le());
        gaps(b).lemma_sort_by_ensures(u32_le());
        vstd::seq_lib::to_multiset_len(widths(b));
        vstd::seq_lib::to_multiset_len(widths(b).sort_by(u32_le()));
        vstd::seq_lib::to_multiset_len(gaps(b));
        vstd::seq_lib::to_multiset_len(gaps(b).sort_by(u32_le()));
    }
    let median_width = sorted_ws[n / 2];
    let median_gap = sorted_gs[(n - 1) / 2];
    proof {
        lemma_sorted_element_bounded(widths(b), (n / 2) as int, MAX_SIDE);
        lemma_sorted_element_bounded(gaps(b), ((n - 1) / 2) as int, MAX_SIDE);
    }
    (median_width, median_gap)
}

/// The number of cells that a bound of the given width spans.
fn spanned(width: u32, median_width: u32, median_gap: u32) -> (n: u32)
    requires
        width <= MAX_SIDE,
        median_width <= MAX_SIDE,
        median_gap <= MAX_SIDE,
    ensures
        n == expected_cells(width + median_gap, median_width + median_gap),
{
    let total_space = width + median_gap;
    let perfect_cell_space = median_width + median_gap;
    if perfect_cell_space == 0 {
        if total_space == 0 { 0 } else { u32::MAX }
    } else {
        assert((2 * total_space + perfect_cell_space) / (2 * perfect_cell_space as int) <= 2 * total_space + perfect_cell_space) by (nonlinear_arith)
            requires
                perfect_cell_space > 0,
                total_space >= 0,
        ;
        ((2 * total_space as u64 + perfect_cell_space as u64) / (2 * perfect_cell_space as u64)) as u32
    }
}

/// Whether `regularize_bounds` can split every bound (see `splits_fit`).
pub fn can_regularize(bounds: &[(u32, u32)]) -> (ok: bool)
    requires
        bounds@.len() >= 3 ==> bounds_in_range(bounds@),
    ensures
        ok == splits_fit(bounds@),
{
    let n = bounds.len();
    if n < 3 {
        return true;
    }
    let (median_width, median_gap) = bound_medians(bounds);
    let ghost b = bounds@;
    let mut k: usize = 0;
    while k < n
        invariant
            n == b.len(),
            b == bounds@,
            n >= 3,
            bounds_in_range(b),
            median_width == median(widths(b)),
            median_gap == median(gaps(b)),
            median_width <= MAX_SIDE,
            median_gap <= MAX_SIDE,
            0 <= k <= n,
            forall|i: int| 0 <= i < k ==> #[trigger] split_fits(b[i], median_width, median_gap),
        decreases n - k,
    {
        let (start, end) = bounds[k];
        let width = if end >= start { end - start } else { 0 };
        if width >= median_width / 4 * 3 {
            let expected = spanned(width, median_width, median_gap);
            if expected > 1 {
                let g = median_gap as u64;
                let m = (expected - 1) as u64;
                assert(g * m <= 4194304 * 4294967295u64) by (nonlinear_arith)
                    requires
                        0 <= g <= 4194304,
                        0 <= m <= 4294967295u64,
                ;
                if median_gap as u64 * (expected - 1) as u64 > width as u64 {
                    assert(!split_fits(b[k as int], median_width, median_gap));
                    return false;
                }
            }
        }
        k = k + 1;
    }
    true
}

/// Evens out the cell bounds found along one axis. With fewer than three bounds
/// they are returned as they are. Otherwise, against the median width and median
/// gap, bounds narrower than three quarters of the median width are dropped,
/// and a bound that spans several cells (its width plus one gap, over the median
/// width plus one gap, rounded) is split into that many equal cells.
pub fn regularize_bounds(bounds: &[(u32, u32)]) -> (fixed: Vec<(u32, u32)>)
    requires
        bounds@.len() >= 3 ==> bounds_in_range(bounds@),
        splits_fit(bounds@),
    ensures
        fixed@ == regularized(bounds@),
{
    let n = bounds.len();
    if n < 3 {
        let mut copy: Vec<(u32, u32)> = Vec::new();
        let mut k: usize = 0;
        while k < n
            invariant
                n == bounds@.len(),
                0 <= k <= n,
                copy@ == bounds@.take(k as int),
            decreases n - k,
        {
            copy.push(bounds[k]);
            proof {
                assert(bounds@.take(k + 1) =~= bounds@.take(k as int).push(bounds@[k as int]));
            }
            k = k + 1;
        }
        assert(bounds@.take(n as int) =~= bounds@);
        return copy;
    }
    let ghost b = bounds@;
    let (median_width, median_gap) = bound_medians(bounds);
    let ghost mw = median_width;
    let ghost mg = median_gap;
    assert(mw == median(widths(b)) && mg == median(gaps(b)));

    let mut fixed: Vec<(u32, u32)> = Vec::new();
    let mut k: usize = 0;
    while k < n
        invariant
            n == b.len(),
            n >= 3,
            b == bounds@,
            bounds_in_range(b),
            splits_fit(b),
            mw == median(widths(b)),
            mg == median(gaps(b)),
            median_width == mw,
            median_gap == mg,
            mw <= MAX_SIDE,
            mg <= MAX_SIDE,
            0 <= k <= n,
            fixed@ == all_pieces(b.take(k as int), mw, mg),
        decreases n - k,
    {
        let (start, end) = bounds[k];
        let ghost bound = b[k as int];
        assert(split_fits(bound, mw, mg));
        assert(b.take(k + 1).drop_last() =~= b.take(k as int));
        let ghost base = fixed@;
        let width = if end >= start { end - start } else { 0 };
        if width < median_width / 4 * 3 {
            assert(pieces(bound, mw, mg) =~= Seq::empty());
            assert(fixed@ =~= all_pieces(b.take(k + 1), mw, mg));
        } else {
            let expected = spanned(width, median_width, median_gap);
            if expected > 1 {
                let calculated_width = (width - median_gap * (expected - 1)) / expected;
                let ghost cw = calculated_width as int;
                assert(cw == split_width(width as int, mg as int, expected as int));
                let mut current_start = start;
                let mut j: u32 = 0;
                while j < expected
                    invariant
                        expected > 1,
                        width as int == sat_sub(bound.1, bound.0),
                        width <= MAX_SIDE,
                        start == bound.0,
                        start <= MAX_SIDE,
                        mg <= MAX_SIDE,
                        median_gap == mg,
                        mg * (expected - 1) <= width,
                        cw == calculated_width,
                        cw == split_width(width as int, mg as int, expected as int),
                        0 <= j <= expected,
                        current_start == start + j * (cw + mg),
                        fixed@ == base + Seq::new(j as nat, |i: int| split_part(start as int, cw, mg as int, i)),
                    decreases expected - j,
                {
                    proof {
                        lemma_split_arith(start as int, width as int, mg as int, expected as int, j as int);
                    }
                    fixed.push((current_start, current_start + calculated_width));
                    current_start = current_start + calculated_width + median_gap;
                    proof {
                        assert(fixed@ =~= base + Seq::new((j + 1) as nat, |i: int| split_part(start as int, cw, mg as int, i)));
                    }
                    j = j + 1;
                }
                assert(fixed@ =~= all_pieces(b.take(k + 1), mw, mg));
            } else {
                fixed.push((start, end));
                assert(fixed@ =~= all_pieces(b.take(k + 1), mw, mg));
            }
        }
        k = k + 1;
    }
    assert(b.take(n as int) =~= b);
    fixed
}


/// The cell interiors of a profile (see `interiors_of`).
pub open spec fn cell_interiors(profile: Seq<u32>, thr: u32) -> Seq<(u32, u32)> {
    choose|b: Seq<(u32, u32)>| interiors_of(profile, thr, b)
}

/// There is only one list of cell interiors for a profile.
pub proof fn lemma_interiors_unique(profile: Seq<u32>, thr: u32, a: Seq<(u32, u32)>, b: Seq<(u32, u32)>)
    requires
        interiors_of(profile, thr, a),
        interiors_of(profile, thr, b),
    ensures
        a == b,
    decreases a.len() + b.len(),
{
    if a.len() == 0 {
        if b.len() > 0 {
            assert(is_interior(profile, thr, b[0].0 as int, b[0].1 as int));
        }
        assert(a =~= b);
    } else if b.len() == 0 {
        assert(is_interior(profile, thr, a[0].0 as int, a[0].1 as int));
    } else {
        assert(is_interior(profile, thr, a[0].0 as int, a[0].1 as int));
        assert(is_interior(profile, thr, b[0].0 as int, b[0].1 as int));
        let j = choose|k: int| 0 <= k < b.len() && b[k].0 == a[0].0 && b[k].1 == a[0].1;
        let i = choose|k: int| 0 <= k < a.len() && a[k].0 == b[0].0 && a[k].1 == b[0].1;
        if i > 0 {
            assert(a[0].1 < a[i].0);
        }
        if j > 0 {
            assert(b[0].1 < b[j].0);
        }
        assert(a[0] == b[0]);
        let a1 = a.drop_first();
        let b1 = b.drop_first();
        assert forall|k: int| #![trigger a1[k]] 0 <= k < a1.len() implies is_interior(profile, thr, a1[k].0 as int, a1[k].1 as int) by {
            assert(a1[k] == a[k + 1]);
        }
        assert forall|k: int| #![trigger b1[k]] 0 <= k < b1.len() implies is_interior(profile, thr, b1[k].0 as int, b1[k].1 as int) by {
            assert(b1[k] == b[k + 1]);
        }
        assert forall|k: int, l: int| 0 <= k < l < a1.len() implies #[trigger] a1[k].1 < #[trigger] a1[l].0 by {
            assert(a1[k] == a[k + 1] && a1[l] == a[l + 1]);
        }
        assert forall|k: int, l: int| 0 <= k < l < b1.len() implies #[trigger] b1[k].1 < #[trigger] b1[l].0 by {
            assert(b1[k] == b[k + 1] && b1[l] == b[l + 1]);
        }
        assert forall|s: int, e: int| #[trigger] is_interior(profile, thr, s, e) && s > a[0].0 implies
            exists|k: int| 0 <= k < a1.len() && a1[k].0 == s && a1[k].1 == e by {
            let k = choose|k: int| 0 <= k < a.len() && a[k].0 == s && a[k].1 == e;
            assert(k > 0);
            assert(a1[k - 1] == a[k]);
        }
        assert forall|s: int, e: int| #[trigger] is_interior(profile, thr, s, e) && s > b[0].0 implies
            exists|k: int| 0 <= k < b1.len() && b1[k].0 == s && b1[k].1 == e by {
            let k = choose|k: int| 0 <= k < b.len() && b[k].0 == s && b[k].1 == e;
            assert(k > 0);
            assert(b1[k - 1] == b[k]);
        }
        lemma_tail_interiors(profile, thr, a, b);
        assert(a =~= seq![a[0]] + a1);
        assert(b =~= seq![b[0]] + b1);
    }
}

/// The lists of interiors past a common first interior agree.
proof fn lemma_tail_interiors(profile: Seq<u32>, thr: u32, a: Seq<(u32, u32)>, b: Seq<(u32, u32)>)
    requires
        a.len() > 0,
        b.len() > 0,
        a[0] == b[0],
        forall|k: int| #![trigger a[k]] 0 <= k < a.len() ==> is_interior(profile, thr, a[k].0 as int, a[k].1 as int),
        forall|k: int| #![trigger b[k]] 0 <= k < b.len() ==> is_interior(profile, thr, b[k].0 as int, b[k].1 as int),
        forall|k: int, l: int| 0 <= k < l < a.len() ==> #[trigger] a[k].1 < #[trigger] a[l].0,
        forall|k: int, l: int| 0 <= k < l < b.len() ==> #[trigger] b[k].1 < #[trigger] b[l].0,
        forall|s: int, e: int| #[trigger] is_interior(profile, thr, s, e) && s > a[0].0 ==>
            exists|k: int| 0 <= k < a.drop_first().len() && a.drop_first()[k].0 == s && a.drop_first()[k].1 == e,
        forall|s: int, e: int| #[trigger] is_interior(profile, thr, s, e) && s > b[0].0 ==>
            exists|k: int| 0 <= k < b.drop_first().len() && b.drop_first()[k].0 == s && b.drop_first()[k].1 == e,
    ensures
        a.drop_first() == b.drop_first(),
    decreases a.len() + b.len(),
{
    let a1 = a.drop_first();
    let b1 = b.drop_first();
    if a1.len() == 0 {
        if b1.len() > 0 {
            assert(b[0].1 < b[1].0);
            assert(is_interior(profile, thr, b[1].0 as int, b[1].1 as int));
        }
        assert(a1 =~= b1);
    } else if b1.len() == 0 {
        assert(a[0].1 < a[1].0);
        assert(is_interior(profile, thr, a[1].0 as int, a[1].1 as int));
    } else {
        assert(a[0].1 < a[1].0);
        assert(b[0].1 < b[1].0);
        assert(is_interior(profile, thr, a[1].0 as int, a[1].1 as int));
        assert(is_interior(profile, thr, b[1].0 as int, b[1].1 as int));
        let j = choose|k: int| 0 <= k < b1.len() && b1[k].0 == a[1].0 && b1[k].1 == a[1].1;
        let i = choose|k: int| 0 <= k < a1.len() && a1[k].0 == b[1].0 && a1[k].1 == b[1].1;
        if i > 0 {
            assert(a[1].1 < a[i + 1].0);
        }
        if j > 0 {
            assert(b[1].1 < b[j + 1].0);
        }
        assert(a[1] == b[1]);
        assert forall|s: int, e: int| #[trigger] is_interior(profile, thr, s, e) && s > a1[0].0 implies
            exists|k: int| 0 <= k < a1.drop_first().len() && a1.drop_first()[k].0 == s && a1.drop_first()[k].1 == e by {
            let k = choose|k: int| 0 <= k < a1.len() && a1[k].0 == s && a1[k].1 == e;
            assert(k > 0);
            assert(a1.drop_first()[k - 1] == a1[k]);
        }
        assert forall|s: int, e: int| #[trigger] is_interior(profile, thr, s, e) && s > b1[0].0 implies
            exists|k: int| 0 <= k < b1.drop_first().len() && b1.drop_first()[k].0 == s && b1.drop_first()[k].1 == e by {
            let k = choose|k: int| 0 <= k < b1.len() && b1[k].0 == s && b1[k].1 == e;
            assert(k > 0);
            assert(b1.drop_first()[k - 1] == b1[k]);
        }
        assert forall|k: int, l: int| 0 <= k < l < a1.len() implies #[trigger] a1[k].1 < #[trigger] a1[l].0 by {
            assert(a1[k] == a[k + 1] && a1[l] == a[l + 1]);
        }
        assert forall|k: int, l: int| 0 <= k < l < b1.len() implies #[trigger] b1[k].1 < #[trigger] b1[l].0 by {
            assert(b1[k] == b[k + 1] && b1[l] == b[l + 1]);
        }
        lemma_tail_interiors(profile, thr, a1, b1);
        assert(a1 =~= seq![a1[0]] + a1.drop_first());
        assert(b1 =~= seq![b1[0]] + b1.drop_first());
    }
}


/// A table cell: `(min_x, max_x, min_y, max_y)`.
pub type Cell = (u32, u32, u32, u32);

/// `n * 0.8` rounded down: the share of a side that a grid line must cover.
pub open spec fn eighty_percent(n: u32) -> u32 {
    (n * 4 / 5) as u32
}

/// The cell interiors found along the x axis, from the smoothed column profile.
pub open spec fn col_interiors(img: Raster) -> Seq<(u32, u32)> {
    cell_interiors(smoothed(col_profile(img), 3), eighty_percent(img.1))
}

/// The cell interiors found along the y axis, from the smoothed row profile.
pub open spec fn row_interiors(img: Raster) -> Seq<(u32, u32)> {
    cell_interiors(smoothed(row_profile(img), 3), eighty_percent(img.0))
}

/// Column `i` of the grid holds, from top to bottom, the cells of x bound `i` with every y bound.
pub open spec fn cell_grid(xb: Seq<(u32, u32)>, yb: Seq<(u32, u32)>) -> Seq<Seq<Cell>> {
    Seq::new(xb.len(), |i: int| Seq::new(yb.len(), |j: int| (xb[i].0, xb[i].1, yb[j].0, yb[j].1)))
}

/// The cells of the table image, column by column.
pub open spec fn table_grid(img: Raster) -> Seq<Seq<Cell>> {
    cell_grid(regularized(col_interiors(img)), regularized(row_interiors(img)))
}

/// The bounds found along both axes can be regularised.
pub open spec fn cells_detectable(img: Raster) -> bool {
    splits_fit(col_interiors(img)) && splits_fit(row_interiors(img))
}

/// The image fits the cell detection: a well-formed raster of at most `MAX_SIDE` pixels a side.
pub open spec fn detection_size_ok(img: Raster) -> bool {
    raster_wf(img) && img.0 <= MAX_SIDE && img.1 <= MAX_SIDE
}

/// The views of a list of columns of cells.
pub open spec fn grid_view(columns: Seq<Vec<Cell>>) -> Seq<Seq<Cell>> {
    columns.map_values(|c: Vec<Cell>| c@)
}

/// `n * 0.8` rounded down, for `n` up to `MAX_SIDE`.
fn eighty_percent_of(n: u32) -> (r: u32)
    requires
        n <= MAX_SIDE,
    ensures
        r == eighty_percent(n),
{
    (n as u64 * 4 / 5) as u32
}

/// Every bound lies within `[0, limit]` and is not inverted.
pub open spec fn bounds_within(b: Seq<(u32, u32)>, limit: int) -> bool {
    forall|k: int| 0 <= k < b.len() ==> #[trigger] b[k].0 <= b[k].1 && b[k].1 <= limit
}

proof fn lemma_pieces_within(bound: (u32, u32), mw: u32, mg: u32)
    requires
        bound.0 <= bound.1 <= MAX_SIDE,
        mw <= MAX_SIDE,
        mg <= MAX_SIDE,
        split_fits(bound, mw, mg),
    ensures
        forall|j: int| 0 <= j < pieces(bound, mw, mg).len() ==>
            bound.0 <= (#[trigger] pieces(bound, mw, mg)[j]).0 <= pieces(bound, mw, mg)[j].1 <= bound.1,
{
    let w = sat_sub(bound.1, bound.0) as int;
    let n = cells_spanned(bound, mw, mg);
    if !too_narrow(bound, mw) && n > 1 {
        let cw = split_width(w, mg as int, n);
        assert forall|j: int| 0 <= j < pieces(bound, mw, mg).len() implies
            bound.0 <= (#[trigger] pieces(bound, mw, mg)[j]).0 <= pieces(bound, mw, mg)[j].1 <= bound.1 by {
            lemma_split_arith(bound.0 as int, w, mg as int, n, j);
            assert(pieces(bound, mw, mg)[j] == split_part(bound.0 as int, cw, mg as int, j));
        }
    }
}

proof fn lemma_all_pieces_within(b: Seq<(u32, u32)>, mw: u32, mg: u32, limit: int)
    requires
        bounds_within(b, limit),
        bounds_in_range(b),
        mw <= MAX_SIDE,
        mg <= MAX_SIDE,
        forall|k: int| 0 <= k < b.len() ==> #[trigger] split_fits(b[k], mw, mg),
    ensures
        bounds_within(all_pieces(b, mw, mg), limit),
    decreases b.len(),
{
    if b.len() > 0 {
        let last = b.last();
        assert(split_fits(b[b.len() - 1], mw, mg));
        assert(bounds_within(b.drop_last(), limit)) by {
            assert forall|k: int| 0 <= k < b.drop_last().len() implies #[trigger] b.drop_last()[k].0 <= b.drop_last()[k].1 && b.drop_last()[k].1 <= limit by {
                assert(b.drop_last()[k] == b[k]);
            }
        }
        assert(bounds_in_range(b.drop_last())) by {
            assert forall|k: int| 0 <= k < b.drop_last().len() implies #[trigger] b.drop_last()[k].0 <= MAX_SIDE && b.drop_last()[k].1 <= MAX_SIDE by {
                assert(b.drop_last()[k] == b[k]);
            }
        }
        assert forall|k: int| 0 <= k < b.drop_last().len() implies #[trigger] split_fits(b.drop_last()[k], mw, mg) by {
            assert(b.drop_last()[k] == b[k]);
        }
        lemma_all_pieces_within(b.drop_last(), mw, mg, limit);
        lemma_pieces_within(last, mw, mg);
        let before = all_pieces(b.drop_last(), mw, mg);
        let p = pieces(last, mw, mg);
        assert forall|k: int| 0 <= k < all_pieces(b, mw, mg).len() implies
            #[trigger] all_pieces(b, mw, mg)[k].0 <= all_pieces(b, mw, mg)[k].1 && all_pieces(b, mw, mg)[k].1 <= limit by {
            if k < before.len() {
                assert(all_pieces(b, mw, mg)[k] == before[k]);
            } else {
                assert(all_pieces(b, mw, mg)[k] == p[k - before.len()]);
            }
        }
    }
}

/// Regularised bounds stay within the limit that the bounds kept.
pub proof fn lemma_regularized_within(b: Seq<(u32, u32)>, limit: int)
    requires
        bounds_within(b, limit),
        bounds_in_range(b),
        splits_fit(b),
    ensures
        bounds_within(regularized(b), limit),
{
    if b.len() >= 3 {
        lemma_sorted_element_bounded(widths(b), (b.len() / 2) as int, MAX_SIDE);
        lemma_sorted_element_bounded(gaps(b), ((b.len() - 1) / 2) as int, MAX_SIDE);
        crate::sorting::lemma_u32_le_total();
        widths(b).lemma_sort_by_ensures(u32_le());
        gaps(b).lemma_sort_by_ensures(u32_le());
        vstd::seq_lib::to_multiset_len(widths(b));
        vstd::seq_lib::to_multiset_len(widths(b).sort_by(u32_le()));
        vstd::seq_lib::to_multiset_len(gaps(b));
        vstd::seq_lib::to_multiset_len(gaps(b).sort_by(u32_le()));
        lemma_all_pieces_within(b, median(widths(b)), median(gaps(b)), limit);
    }
}

/// Finds the interiors of a profile and regularises them, when that is possible.
fn axis_bounds(profile: &Vec<u32>, thr: u32) -> (r: Option<Vec<(u32, u32)>>)
    requires
        profile@.len() <= MAX_SIDE,
    ensures
        match r {
            Some(b) => splits_fit(cell_interiors(profile@, thr)) && b@ == regularized(cell_interiors(profile@, thr))
                && bounds_within(b@, profile@.len() as int),
            None => !splits_fit(cell_interiors(profile@, thr)),
        },
{
    let interiors = find_cell_interiors(profile.as_slice(), thr);
    proof {
        lemma_interiors_unique(profile@, thr, interiors@, cell_interiors(profile@, thr));
        assert forall|k: int| 0 <= k < interiors@.len() implies #[trigger] interiors@[k].0 <= MAX_SIDE && interiors@[k].1 <= MAX_SIDE by {
            assert(is_interior(profile@, thr, interiors@[k].0 as int, interiors@[k].1 as int));
        }
    }
    if can_regularize(interiors.as_slice()) {
        proof {
            assert forall|k: int| 0 <= k < interiors@.len() implies #[trigger] interiors@[k].0 <= interiors@[k].1 && interiors@[k].1 <= profile@.len() by {
                assert(is_interior(profile@, thr, interiors@[k].0 as int, interiors@[k].1 as int));
            }
            lemma_regularized_within(interiors@, profile@.len() as int);
        }
        Some(regularize_bounds(interiors.as_slice()))
    } else {
        None
    }
}

/// Every cell of the grid lies inside a `width` by `height` image and is not inverted.
pub open spec fn cells_inside(grid: Seq<Seq<Cell>>, width: int, height: int) -> bool {
    forall|i: int, j: int| 0 <= i < grid.len() && 0 <= j < grid[i].len() ==> {
        let c = #[trigger] grid[i][j];
        c.0 <= c.1 <= width && c.2 <= c.3 <= height
    }
}

/// Finds the cells of a binarised table image (see `detect_cells`), or `None`
/// where the bounds cannot be regularised.
pub fn try_detect_cells(img: &GrayGrid) -> (r: Option<Vec<Vec<Cell>>>)
    requires
        detection_size_ok(img@),
    ensures
        match r {
            Some(columns) => cells_detectable(img@) && grid_view(columns@) == table_grid(img@)
                && cells_inside(table_grid(img@), img.width as int, img.height as int),
            None => !cells_detectable(img@),
        },
{
    proof {
        lemma_profiles_fit(img@, 3);
    }
    let (col_sum, row_sum) = sum_cols_rows(img, 3);
    let thr_width = eighty_percent_of(img.width);
    let thr_height = eighty_percent_of(img.height);
    let x_bounds = match axis_bounds(&col_sum, thr_height) {
        Some(b) => b,
        None => return None,
    };
    let y_bounds = match axis_bounds(&row_sum, thr_width) {
        Some(b) => b,
        None => return None,
    };
    let ghost grid = cell_grid(x_bounds@, y_bounds@);
    let mut columns: Vec<Vec<Cell>> = Vec::new();
    let mut i: usize = 0;
    while i < x_bounds.len()
        invariant
            0 <= i <= x_bounds@.len(),
            grid == cell_grid(x_bounds@, y_bounds@),
            grid_view(columns@) == grid.take(i as int),
        decreases x_bounds@.len() - i,
    {
        let (min_x, max_x) = x_bounds[i];
        let mut current_column: Vec<Cell> = Vec::new();
        let mut j: usize = 0;
        while j < y_bounds.len()
            invariant
                0 <= i < x_bounds@.len(),
                0 <= j <= y_bounds@.len(),
                (min_x, max_x) == x_bounds@[i as int],
                grid == cell_grid(x_bounds@, y_bounds@),
                current_column@ == grid[i as int].take(j as int),
            decreases y_bounds@.len() - j,
        {
            let (min_y, max_y) = y_bounds[j];
            current_column.push((min_x, max_x, min_y, max_y));
            proof {
                assert(current_column@ =~= grid[i as int].take(j + 1));
            }
            j = j + 1;
        }
        assert(current_column@ =~= grid[i as int]);
        let ghost old_cols = columns@;
        let ghost col_view = current_column@;
        columns.push(current_column);
        proof {
            assert(grid_view(columns@) =~= grid_view(old_cols).push(col_view));
            assert(grid_view(columns@) =~= grid.take(i + 1));
        }
        i = i + 1;
    }
    assert(grid.take(x_bounds@.len() as int) =~= grid);
    assert(cells_inside(grid, img.width as int, img.height as int)) by {
        assert forall|i: int, j: int| 0 <= i < grid.len() && 0 <= j < grid[i].len() implies {
            let c = #[trigger] grid[i][j];
            c.0 <= c.1 <= img.width && c.2 <= c.3 <= img.height
        } by {
            assert(grid[i][j] == (x_bounds@[i].0, x_bounds@[i].1, y_bounds@[j].0, y_bounds@[j].1));
        }
    }
    Some(columns)
}

/// Finds the cells of a binarised table image: the cell interiors along each axis
/// (runs of the smoothed dark-run profile below 80% of the other side), evened
/// out by `regularize_bounds`, and combined into a grid of columns.
pub fn detect_cells(img: &GrayGrid) -> (columns: Vec<Vec<Cell>>)
    requires
        detection_size_ok(img@),
        cells_detectable(img@),
    ensures
        grid_view(columns@) == table_grid(img@),
        cells_inside(table_grid(img@), img.width as int, img.height as int),
{
    match try_detect_cells(img) {
        Some(columns) => columns,
        None => Vec::new(),
    }
}

/// A run of dark pixels as long as the line is the whole line.
proof fn lemma_full_run(d: Seq<bool>)
    requires
        forall|y: int| 0 <= y < d.len() ==> #[trigger] d[y],
    ensures
        run_state(d).0 == d.len(),
        longest_run(d) == d.len(),
    decreases d.len(),
{
    if d.len() > 0 {
        lemma_full_run(d.drop_last());
        assert(d.last());
    }
}

/// A sum of counts is at least each of its counts.
proof fn lemma_sum_at_least(s: Seq<u32>, j: int)
    requires
        0 <= j < s.len(),
    ensures
        seq_sum(s) >= s[j],
    decreases s.len(),
{
    if j == s.len() - 1 {
        lemma_seq_sum_nonneg(s.drop_last());
    } else {
        lemma_sum_at_least(s.drop_last(), j);
    }
}

/// Each piece of a list of bounds lies inside one of the bounds.
proof fn lemma_all_pieces_inside(b: Seq<(u32, u32)>, mw: u32, mg: u32)
    requires
        bounds_in_range(b),
        forall|k: int| 0 <= k < b.len() ==> #[trigger] b[k].0 <= b[k].1,
        mw <= MAX_SIDE,
        mg <= MAX_SIDE,
        forall|k: int| 0 <= k < b.len() ==> #[trigger] split_fits(b[k], mw, mg),
    ensures
        forall|k: int| 0 <= k < all_pieces(b, mw, mg).len() ==> exists|m: int|
            0 <= m < b.len() && b[m].0 <= (#[trigger] all_pieces(b, mw, mg)[k]).0 && all_pieces(b, mw, mg)[k].1 <= b[m].1,
    decreases b.len(),
{
    if b.len() > 0 {
        let bl = b.drop_last();
        assert forall|k: int| 0 <= k < bl.len() implies #[trigger] bl[k].0 <= MAX_SIDE && bl[k].1 <= MAX_SIDE by {
            assert(bl[k] == b[k]);
        }
        assert forall|k: int| 0 <= k < bl.len() implies #[trigger] bl[k].0 <= bl[k].1 by {
            assert(bl[k] == b[k]);
        }
        assert forall|k: int| 0 <= k < bl.len() implies #[trigger] split_fits(bl[k], mw, mg) by {
            assert(bl[k] == b[k]);
        }
        lemma_all_pieces_inside(bl, mw, mg);
        let last = b[b.len() - 1];
        assert(last == b.last());
        assert(split_fits(last, mw, mg));
        lemma_pieces_within(last, mw, mg);
        let before = all_pieces(bl, mw, mg);
        let ps = pieces(last, mw, mg);
        let ap = all_pieces(b, mw, mg);
        assert forall|k: int| 0 <= k < ap.len() implies exists|m: int|
            0 <= m < b.len() && b[m].0 <= (#[trigger] ap[k]).0 && ap[k].1 <= b[m].1 by {
            if k < before.len() {
                assert(ap[k] == before[k]);
                let m = choose|m: int| 0 <= m < bl.len() && bl[m].0 <= before[k].0 && before[k].1 <= bl[m].1;
                assert(b[m] == bl[m]);
            } else {
                assert(ap[k] == ps[k - before.len()]);
                assert(b[b.len() - 1] == last);
            }
        }
    }
}

/// No regularised bound of a profile covers an entry that is not below the threshold.
proof fn lemma_closed_entry_outside(p: Seq<u32>, thr: u32, x: int)
    requires
        p.len() <= MAX_SIDE,
        splits_fit(cell_interiors(p, thr)),
        0 <= x < p.len(),
        !is_open(p, thr, x),
    ensures
        forall|i: int| 0 <= i < regularized(cell_interiors(p, thr)).len() ==>
            !((#[trigger] regularized(cell_interiors(p, thr))[i]).0 <= x < regularized(cell_interiors(p, thr))[i].1),
{
    let ci = cell_interiors(p, thr);
    lemma_interiors_exist(p, thr);
    assert forall|k: int| 0 <= k < ci.len() implies #[trigger] ci[k].0 <= MAX_SIDE && ci[k].1 <= MAX_SIDE by {
        assert(is_interior(p, thr, ci[k].0 as int, ci[k].1 as int));
    }
    assert forall|k: int| 0 <= k < ci.len() implies #[trigger] ci[k].0 <= ci[k].1 by {
        assert(is_interior(p, thr, ci[k].0 as int, ci[k].1 as int));
    }
    let rb = regularized(ci);
    assert forall|i: int| 0 <= i < rb.len() implies !((#[trigger] rb[i]).0 <= x < rb[i].1) by {
        let m = if ci.len() < 3 {
            i
        } else {
            lemma_sorted_element_bounded(widths(ci), (ci.len() / 2) as int, MAX_SIDE);
            lemma_sorted_element_bounded(gaps(ci), ((ci.len() - 1) / 2) as int, MAX_SIDE);
            crate::sorting::lemma_u32_le_total();
            widths(ci).lemma_sort_by_ensures(u32_le());
            gaps(ci).lemma_sort_by_ensures(u32_le());
            vstd::seq_lib::to_multiset_len(widths(ci));
            vstd::seq_lib::to_multiset_len(widths(ci).sort_by(u32_le()));
            vstd::seq_lib::to_multiset_len(gaps(ci));
            vstd::seq_lib::to_multiset_len(gaps(ci).sort_by(u32_le()));
            lemma_all_pieces_inside(ci, median(widths(ci)), median(gaps(ci)));
            choose|m: int| 0 <= m < ci.len() && ci[m].0 <= rb[i].0 && rb[i].1 <= ci[m].1
        };
        assert(0 <= m < ci.len() && ci[m].0 <= rb[i].0 && rb[i].1 <= ci[m].1);
        assert(is_interior(p, thr, ci[m].0 as int, ci[m].1 as int));
        if rb[i].0 <= x < rb[i].1 {
            assert(is_open(p, thr, x));
        }
    }
}

/// A smoothed profile entry of a line dark from end to end is at least the
/// line's length, so it is never below 80% of it.
proof fn lemma_full_line_closed(prof: Seq<u32>, x: int, len: u32)
    requires
        0 <= x < prof.len(),
        prof[x] == len,
        window_sums_fit(prof, 3),
    ensures
        !is_open(smoothed(prof, 3), eighty_percent(len), x),
{
    let w = prof.subrange(window_lo(x, 1), window_hi(x, 1, prof.len() as int) + 1);
    assert(w[x - window_lo(x, 1)] == prof[x]);
    lemma_sum_at_least(w, x - window_lo(x, 1));
    assert(smoothed(prof, 3)[x] == window_sum(prof, x, 1) as u32);
}

/// A vertical grid line, dark over the whole height of the table image,
/// separates cell columns: no cell reaches across it, whatever the image's
/// proportions.
pub proof fn lemma_full_height_line_separates(img: Raster, x: int)
    requires
        detection_size_ok(img),
        cells_detectable(img),
        0 <= x < img.0,
        forall|y: int| 0 <= y < img.1 ==> #[trigger] raster_at(img, x, y) < 128,
    ensures
        forall|i: int, j: int| 0 <= i < table_grid(img).len() && 0 <= j < table_grid(img)[i].len() ==>
            !((#[trigger] table_grid(img)[i][j]).0 <= x < table_grid(img)[i][j].1),
{
    let d = dark_col(img, x);
    assert forall|y: int| 0 <= y < d.len() implies #[trigger] d[y] by {
        assert(raster_at(img, x, y) < 128);
    }
    lemma_full_run(d);
    lemma_profiles_fit(img, 3);
    let prof = col_profile(img);
    assert(prof[x] == img.1);
    lemma_full_line_closed(prof, x, img.1);
    lemma_closed_entry_outside(smoothed(prof, 3), eighty_percent(img.1), x);
    let xb = regularized(col_interiors(img));
    assert forall|i: int, j: int| 0 <= i < table_grid(img).len() && 0 <= j < table_grid(img)[i].len() implies
        !((#[trigger] table_grid(img)[i][j]).0 <= x < table_grid(img)[i][j].1) by {
        assert(table_grid(img)[i][j].0 == xb[i].0 && table_grid(img)[i][j].1 == xb[i].1);
    }
}

/// A horizontal grid line, dark over the whole width of the table image,
/// separates cell rows: no cell reaches across it, whatever the image's
/// proportions.
pub proof fn lemma_full_width_line_separates(img: Raster, y: int)
    requires
        detection_size_ok(img),
        cells_detectable(img),
        0 <= y < img.1,
        forall|x: int| 0 <= x < img.0 ==> #[trigger] raster_at(img, x, y) < 128,
    ensures
        forall|i: int, j: int| 0 <= i < table_grid(img).len() && 0 <= j < table_grid(img)[i].len() ==>
            !((#[trigger] table_grid(img)[i][j]).2 <= y < table_grid(img)[i][j].3),
{
    let d = dark_row(img, y);
    assert forall|x: int| 0 <= x < d.len() implies #[trigger] d[x] by {
        assert(raster_at(img, x, y) < 128);
    }
    lemma_full_run(d);
    lemma_profiles_fit(img, 3);
    let prof = row_profile(img);
    assert(prof[y] == img.0);
    lemma_full_line_closed(prof, y, img.0);
    lemma_closed_entry_outside(smoothed(prof, 3), eighty_percent(img.0), y);
    let yb = regularized(row_interiors(img));
    assert forall|i: int, j: int| 0 <= i < table_grid(img).len() && 0 <= j < table_grid(img)[i].len() implies
        !((#[trigger] table_grid(img)[i][j]).2 <= y < table_grid(img)[i][j].3) by {
        assert(table_grid(img)[i][j].2 == yb[j].0 && table_grid(img)[i][j].3 == yb[j].1);
    }
}

} // verus!
