//! Dark-pixel profiles of a table image: longest dark runs per row and column,
//! and their smoothing by a sliding window.

use vstd::prelude::*;
use crate::imaging::{GrayGrid, Raster, raster_at};

verus! {

/// Sum of a sequence of counts.
pub open spec fn seq_sum(s: Seq<u32>) -> int
    decreases s.len(),
{
    if s.len() == 0 {
        0
    } else {
        seq_sum(s.drop_last()) + s.last()
    }
}

/// A prefix of a sequence of counts sums to no more than the whole sequence.
pub proof fn lemma_seq_sum_prefix(s: Seq<u32>, k: int)
    requires
        0 <= k <= s.len(),
    ensures
        0 <= seq_sum(s.take(k)) <= seq_sum(s),
    decreases s.len(),
{
    if k == s.len() {
        assert(s.take(k) =~= s);
        lemma_seq_sum_nonneg(s);
    } else {
        lemma_seq_sum_prefix(s.drop_last(), k);
        assert(s.drop_last().take(k) =~= s.take(k));
    }
}

/// A sum of counts is never negative.
pub proof fn lemma_seq_sum_nonneg(s: Seq<u32>)
    ensures
        seq_sum(s) >= 0,
    decreases s.len(),
{
    if s.len() > 0 {
        lemma_seq_sum_nonneg(s.drop_last());
    }
}

/// First index of the window of half-width `h` around `i`.
pub open spec fn window_lo(i: int, h: int) -> int {
    if i >= h { i - h } else { 0 }
}

/// Last index (inclusive) of the window of half-width `h` around `i` in a profile of length `n`.
pub open spec fn window_hi(i: int, h: int, n: int) -> int {
    if i + h < n - 1 { i + h } else { n - 1 }
}

/// Sum of the profile over the window of half-width `h` around `i`.
pub open spec fn window_sum(profile: Seq<u32>, i: int, h: int) -> int {
    seq_sum(profile.subrange(window_lo(i, h), window_hi(i, h, profile.len() as int) + 1))
}

/// The window sums of the profile can be computed: the last index plus the
/// half window fits in `usize`, and every window sum fits in `u32`.
pub open spec fn window_sums_fit(profile: Seq<u32>, window_sz: usize) -> bool {
    &&& profile.len() == 0 || profile.len() - 1 + window_sz / 2 <= usize::MAX
    &&& forall|i: int| 0 <= i < profile.len() ==> #[trigger] window_sum(profile, i, (window_sz / 2) as int) <= u32::MAX
}

/// A window of half-width 0 holds the entry alone, so window sizes 0 and 1
/// leave a profile unchanged; sizes `2k` and `2k + 1` have the same half-width
/// and give the same sums.
pub proof fn lemma_narrow_windows(profile: Seq<u32>, k: nat)
    ensures
        forall|i: int| 0 <= i < profile.len() ==> #[trigger] window_sum(profile, i, 0) == profile[i],
        (2 * k) / 2 == (2 * k + 1) / 2,
{
    assert forall|i: int| 0 <= i < profile.len() implies #[trigger] window_sum(profile, i, 0) == profile[i] by {
        let w = profile.subrange(i, i + 1);
        assert(w.drop_last() =~= Seq::<u32>::empty());
        assert(seq_sum(w) == seq_sum(w.drop_last()) + w.last());
    }
}

/// Replaces each entry of the profile by the sum of the entries within
/// `window_sz / 2` positions of it (the window is cut at both ends).
pub fn window_avg(profile: &[u32], window_sz: usize) -> (result: Vec<u32>)
    requires
        window_sums_fit(profile@, window_sz),
    ensures
        result@.len() == profile@.len(),
        forall|i: int| 0 <= i < result@.len() ==> #[trigger] result@[i] == window_sum(profile@, i, (window_sz / 2) as int),
{
    let n = profile.len();
    let half_window = window_sz / 2;
    let mut result: Vec<u32> = Vec::new();
    let mut i: usize = 0;
    while i < n
        invariant
            n == profile@.len(),
            half_window == window_sz / 2,
            n == 0 || n - 1 + half_window <= usize::MAX,
            forall|k: int| 0 <= k < n ==> #[trigger] window_sum(profile@, k, half_window as int) <= u32::MAX,
            0 <= i <= n,
            result@.len() == i,
            forall|k: int| 0 <= k < i ==> #[trigger] result@[k] == window_sum(profile@, k, half_window as int),
        decreases n - i,
    {
        let start = if i >= half_window { i - half_window } else { 0 };
        let end = if i + half_window < n - 1 { i + half_window } else { n - 1 };
        let ghost win = profile@.subrange(start as int, end + 1);
        assert(window_sum(profile@, i as int, half_window as int) == seq_sum(win));
        let mut acc: u32 = 0;
        let mut j: usize = start;
        while j <= end
            invariant
                start <= j <= end + 1,
                end < n,
                n == profile@.len(),
                win == profile@.subrange(start as int, end + 1),
                seq_sum(win) <= u32::MAX,
                acc == seq_sum(profile@.subrange(start as int, j as int)),
            decreases end + 1 - j,
        {
            proof {
                assert(profile@.subrange(start as int, j + 1).drop_last() =~= profile@.subrange(start as int, j as int));
                assert(win.take(j + 1 - start) =~= profile@.subrange(start as int, j + 1));
                lemma_seq_sum_prefix(win, j + 1 - start);
            }
            acc = acc + profile[j];
            j = j + 1;
        }
        result.push(acc);
        i = i + 1;
    }
    result
}


/// How many light pixels a dark run may bridge before it is broken.
pub const MAX_GAP: u32 = 2;

/// One step of the dark-run tracker: `(current, gap)` after seeing one more pixel.
/// A dark pixel extends the run and closes the gap; a light pixel extends a
/// started run while fewer than `MAX_GAP` light pixels have been bridged in a
/// row, and otherwise resets the run.
pub open spec fn run_step(state: (int, int), dark: bool) -> (int, int) {
    let (current, gap) = state;
    if dark {
        (current + 1, 0)
    } else if gap < MAX_GAP && current > 0 {
        (current + 1, gap + 1)
    } else {
        (0, gap)
    }
}

/// The tracker state after a sequence of pixels (dark = `true`).
pub open spec fn run_state(d: Seq<bool>) -> (int, int)
    decreases d.len(),
{
    if d.len() == 0 {
        (0, 0)
    } else {
        run_step(run_state(d.drop_last()), d.last())
    }
}

/// The longest dark run seen along a sequence of pixels: the largest run length
/// that the tracker reached on a dark pixel.
pub open spec fn longest_run(d: Seq<bool>) -> int
    decreases d.len(),
{
    if d.len() == 0 {
        0
    } else {
        let best = longest_run(d.drop_last());
        let current = run_state(d).0;
        if d.last() && current > best { current } else { best }
    }
}

/// Run lengths never exceed the number of pixels seen.
pub proof fn lemma_run_bounds(d: Seq<bool>)
    ensures
        0 <= run_state(d).0 <= d.len(),
        0 <= run_state(d).1 <= MAX_GAP,
        0 <= longest_run(d) <= d.len(),
    decreases d.len(),
{
    if d.len() > 0 {
        lemma_run_bounds(d.drop_last());
    }
}

/// A pixel counts as dark when its intensity is below 128.
pub open spec fn is_dark(img: Raster, x: int, y: int) -> bool {
    raster_at(img, x, y) < 128
}

/// The pixels of row `y`, dark or not, from left to right.
pub open spec fn dark_row(img: Raster, y: int) -> Seq<bool> {
    Seq::new(img.0 as nat, |x: int| is_dark(img, x, y))
}

/// The pixels of column `x`, dark or not, from top to bottom.
pub open spec fn dark_col(img: Raster, x: int) -> Seq<bool> {
    Seq::new(img.1 as nat, |y: int| is_dark(img, x, y))
}

/// The longest dark run of each column.
pub open spec fn col_profile(img: Raster) -> Seq<u32> {
    Seq::new(img.0 as nat, |x: int| longest_run(dark_col(img, x)) as u32)
}

/// The longest dark run of each row.
pub open spec fn row_profile(img: Raster) -> Seq<u32> {
    Seq::new(img.1 as nat, |y: int| longest_run(dark_row(img, y)) as u32)
}

/// A profile smoothed by `window_avg` with the given window size, or left as it
/// is when the window size is 0.
pub open spec fn smoothed(p: Seq<u32>, window_sz: usize) -> Seq<u32> {
    if window_sz > 0 {
        Seq::new(p.len(), |i: int| window_sum(p, i, (window_sz / 2) as int) as u32)
    } else {
        p
    }
}

/// A sum of counts that are each at most `m` is at most `len * m`.
pub proof fn lemma_seq_sum_bound(s: Seq<u32>, m: int)
    requires
        forall|i: int| 0 <= i < s.len() ==> s[i] <= m,
        m >= 0,
    ensures
        seq_sum(s) <= s.len() * m,
    decreases s.len(),
{
    if s.len() > 0 {
        lemma_seq_sum_bound(s.drop_last(), m);
        assert((s.len() - 1) * m + m == s.len() * m) by (nonlinear_arith);
    }
}

/// Window sums of a profile whose entries are at most `m` stay within `(window_sz + 1) * m`.
pub proof fn lemma_window_sums_fit(p: Seq<u32>, window_sz: usize, m: int)
    requires
        forall|i: int| 0 <= i < p.len() ==> p[i] <= m,
        m >= 0,
        (window_sz + 1) * m <= u32::MAX,
    ensures
        forall|i: int| 0 <= i < p.len() ==> #[trigger] window_sum(p, i, (window_sz / 2) as int) <= u32::MAX,
{
    assert forall|i: int| 0 <= i < p.len() implies #[trigger] window_sum(p, i, (window_sz / 2) as int) <= u32::MAX by {
        let h = (window_sz / 2) as int;
        let w = p.subrange(window_lo(i, h), window_hi(i, h, p.len() as int) + 1);
        lemma_seq_sum_bound(w, m);
        assert(w.len() <= window_sz + 1);
        assert(w.len() * m <= (window_sz + 1) * m) by (nonlinear_arith)
            requires
                w.len() <= window_sz + 1,
                m >= 0,
        ;
    }
}

/// The profiles of an image whose sides are small enough for the window
/// have window sums that fit: each entry is at most the side across it.
pub proof fn lemma_profiles_fit(img: Raster, window_sz: usize)
    requires
        (window_sz + 1) * img.0 <= u32::MAX,
        (window_sz + 1) * img.1 <= u32::MAX,
    ensures
        window_sums_fit(col_profile(img), window_sz),
        window_sums_fit(row_profile(img), window_sz),
{
    let c = col_profile(img);
    let r = row_profile(img);
    assert forall|i: int| 0 <= i < c.len() implies c[i] <= img.1 by {
        lemma_run_bounds(dark_col(img, i));
    }
    assert forall|i: int| 0 <= i < r.len() implies r[i] <= img.0 by {
        lemma_run_bounds(dark_row(img, i));
    }
    lemma_window_sums_fit(c, window_sz, img.1 as int);
    lemma_window_sums_fit(r, window_sz, img.0 as int);
    if img.0 >= 1 {
        assert(window_sz / 2 + img.0 <= (window_sz + 1) * img.0) by (nonlinear_arith)
            requires
                img.0 >= 1,
        ;
    }
    if img.1 >= 1 {
        assert(window_sz / 2 + img.1 <= (window_sz + 1) * img.1) by (nonlinear_arith)
            requires
                img.1 >= 1,
        ;
    }
}

/// The tracker state of column `k` after its first `t` pixels is held in the three vectors.
pub open spec fn col_tracked(img: Raster, sums: Seq<u32>, cur: Seq<u32>, gap: Seq<u32>, k: int, t: int) -> bool {
    let d = dark_col(img, k).take(t);
    &&& sums[k] == longest_run(d)
    &&& cur[k] == run_state(d).0
    &&& gap[k] == run_state(d).1
}

/// For each column and each row of the image, the length of its longest run of
/// dark pixels, where runs may bridge up to `MAX_GAP` light pixels; both
/// profiles are then smoothed with `window_avg` when `window_sz` is not 0.
pub fn sum_cols_rows(img: &GrayGrid, window_sz: usize) -> (sums: (Vec<u32>, Vec<u32>))
    requires
        img.wf(),
        window_sz > 0 ==> window_sums_fit(col_profile(img@), window_sz),
        window_sz > 0 ==> window_sums_fit(row_profile(img@), window_sz),
    ensures
        sums.0@ == smoothed(col_profile(img@), window_sz),
        sums.1@ == smoothed(row_profile(img@), window_sz),
{
    let width = img.width as usize;
    let height = img.height as usize;
    let mut col_sums: Vec<u32> = Vec::new();
    let mut col_current: Vec<u32> = Vec::new();
    let mut col_gap: Vec<u32> = Vec::new();
    let mut x: usize = 0;
    while x < width
        invariant
            0 <= x <= width,
            col_sums@.len() == x,
            col_current@.len() == x,
            col_gap@.len() == x,
            forall|k: int| 0 <= k < x ==> #[trigger] col_sums@[k] == 0 && col_current@[k] == 0 && col_gap@[k] == 0,
        decreases width - x,
    {
        col_sums.push(0);
        col_current.push(0);
        col_gap.push(0);
        x = x + 1;
    }
    let mut row_sums: Vec<u32> = Vec::new();
    let mut y: usize = 0;
    while y < height
        invariant
            width == img.width,
            height == img.height,
            img.wf(),
            0 <= y <= height,
            row_sums@.len() == y,
            col_sums@.len() == width,
            col_current@.len() == width,
            col_gap@.len() == width,
            forall|k: int| 0 <= k < y ==> #[trigger] row_sums@[k] == longest_run(dark_row(img@, k)),
            forall|k: int| 0 <= k < width ==> #[trigger] col_tracked(img@, col_sums@, col_current@, col_gap@, k, y as int),
        decreases height - y,
    {
        let mut row_current: u32 = 0;
        let mut row_gap: u32 = 0;
        let mut row_best: u32 = 0;
        let ghost row = dark_row(img@, y as int);
        let mut x: usize = 0;
        while x < width
            invariant
                width == img.width,
                height == img.height,
                img.wf(),
                y < height,
                0 <= x <= width,
                row == dark_row(img@, y as int),
                col_sums@.len() == width,
                col_current@.len() == width,
                col_gap@.len() == width,
                row_best == longest_run(row.take(x as int)),
                row_current == run_state(row.take(x as int)).0,
                row_gap == run_state(row.take(x as int)).1,
                forall|k: int| 0 <= k < x ==> #[trigger] col_tracked(img@, col_sums@, col_current@, col_gap@, k, y + 1),
                forall|k: int| x <= k < width ==> #[trigger] col_tracked(img@, col_sums@, col_current@, col_gap@, k, y as int),
            decreases width - x,
        {
            let is_dark = img.get(x as u32, y as u32) < 128;
            proof {
                assert(row.take(x + 1).drop_last() =~= row.take(x as int));
                assert(row.take(x + 1).last() == is_dark);
                lemma_run_bounds(row.take(x as int));
                lemma_run_bounds(row.take(x + 1));
                let dc = dark_col(img@, x as int);
                assert(dc.take(y + 1).drop_last() =~= dc.take(y as int));
                assert(dc.take(y + 1).last() == is_dark);
                lemma_run_bounds(dc.take(y as int));
                lemma_run_bounds(dc.take(y + 1));
            }
            if is_dark {
                row_current = row_current + 1;
                row_gap = 0;
                if row_current > row_best {
                    row_best = row_current;
                }
            } else {
                if row_gap < MAX_GAP && row_current > 0 {
                    row_current = row_current + 1;
                    row_gap = row_gap + 1;
                } else {
                    row_current = 0;
                }
            }
            let ghost old_sums = col_sums@;
            let ghost old_cur = col_current@;
            let ghost old_gap = col_gap@;
            assert(col_tracked(img@, old_sums, old_cur, old_gap, x as int, y as int));
            let cc = col_current[x];
            let cg = col_gap[x];
            let cs = col_sums[x];
            if is_dark {
                col_current.set(x, cc + 1);
                col_gap.set(x, 0);
                if cc + 1 > cs {
                    col_sums.set(x, cc + 1);
                }
            } else {
                if cg < MAX_GAP && cc > 0 {
                    col_current.set(x, cc + 1);
                    col_gap.set(x, cg + 1);
                } else {
                    col_current.set(x, 0);
                }
            }
            proof {
                assert forall|k: int| 0 <= k < x + 1 implies #[trigger] col_tracked(img@, col_sums@, col_current@, col_gap@, k, y + 1) by {
                    if k < x {
                        assert(col_tracked(img@, old_sums, old_cur, old_gap, k, y + 1));
                    }
                }
                assert forall|k: int| x + 1 <= k < width implies #[trigger] col_tracked(img@, col_sums@, col_current@, col_gap@, k, y as int) by {
                    assert(col_tracked(img@, old_sums, old_cur, old_gap, k, y as int));
                }
            }
            x = x + 1;
        }
        assert(row.take(width as int) =~= row);
        row_sums.push(row_best);
        y = y + 1;
    }
    proof {
        assert forall|k: int| 0 <= k < width implies col_sums@[k] == col_profile(img@)[k] by {
            assert(col_tracked(img@, col_sums@, col_current@, col_gap@, k, height as int));
            assert(dark_col(img@, k).take(height as int) =~= dark_col(img@, k));
        }
        assert(col_sums@ =~= col_profile(img@));
        assert(row_sums@ =~= row_profile(img@));
    }
    if window_sz > 0 {
        let cols = window_avg(col_sums.as_slice(), window_sz);
        let rows = window_avg(row_sums.as_slice(), window_sz);
        proof {
            assert(cols@ =~= smoothed(col_profile(img@), window_sz));
            assert(rows@ =~= smoothed(row_profile(img@), window_sz));
        }
        (cols, rows)
    } else {
        (col_sums, row_sums)
    }
}

} // verus!
