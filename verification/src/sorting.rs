//! Sorting of counts and of indices by key, stated against vstd's `sort_by`.

use vstd::prelude::*;
use vstd::relations::{sorted_by, total_ordering};

verus! {

broadcast use vstd::seq_lib::group_to_multiset_ensures;

/// The usual order on `u32`.
pub open spec fn u32_le() -> spec_fn(u32, u32) -> bool {
    |a: u32, b: u32| a <= b
}

/// The order on indices by `keys[index]`, ties broken by the index itself:
/// the order in which a stable sort by key leaves the indices `0..n`.
pub open spec fn key_then_index(keys: Seq<i64>) -> spec_fn(usize, usize) -> bool {
    |a: usize, b: usize| keys[a as int] < keys[b as int] || (keys[a as int] == keys[b as int] && a <= b)
}

/// The indices `0..n` in increasing order.
pub open spec fn indices(n: nat) -> Seq<usize> {
    Seq::new(n, |i: int| i as usize)
}

/// The indices of `keys` sorted stably by key.
pub open spec fn stable_order(keys: Seq<i64>) -> Seq<usize> {
    indices(keys.len()).sort_by(key_then_index(keys))
}

pub proof fn lemma_u32_le_total()
    ensures
        total_ordering(u32_le()),
{
}

pub proof fn lemma_key_then_index_total(keys: Seq<i64>)
    ensures
        total_ordering(key_then_index(keys)),
{
}

/// The values of `v` in increasing order.
pub fn sort_u32(v: &Vec<u32>) -> (r: Vec<u32>)
    ensures
        r@ == v@.sort_by(u32_le()),
{
    let mut res: Vec<u32> = Vec::new();
    let n = v.len();
    let mut i: usize = 0;
    while i < n
        invariant
            n == v@.len(),
            0 <= i <= n,
            sorted_by(res@, u32_le()),
            res@.to_multiset() == v@.take(i as int).to_multiset(),
        decreases n - i,
    {
        let x = v[i];
        let mut pos: usize = 0;
        while pos < res.len() && res[pos] <= x
            invariant
                0 <= pos <= res@.len(),
                forall|k: int| 0 <= k < pos ==> res@[k] <= x,
            decreases res@.len() - pos,
        {
            pos = pos + 1;
        }
        let ghost old_res = res@;
        res.insert(pos, x);
        proof {
            assert(v@.take(i + 1) =~= v@.take(i as int).push(x));
            assert forall|a: int, b: int| 0 <= a < b < res@.len() implies #[trigger] (u32_le())(res@[a], res@[b]) by {
                if b < pos {
                    assert((u32_le())(old_res[a], old_res[b]));
                } else if b == pos {
                    assert(res@[a] == old_res[a]);
                } else if a < pos {
                    assert(old_res[a] <= x);
                    assert(pos < old_res.len());
                    assert((u32_le())(old_res[pos as int], old_res[b - 1]) || pos == b - 1);
                } else if a == pos {
                    assert((u32_le())(old_res[pos as int], old_res[b - 1]) || pos == b - 1);
                } else {
                    assert((u32_le())(old_res[a - 1], old_res[b - 1]));
                }
            }
        }
        i = i + 1;
    }
    proof {
        assert(v@.take(n as int) =~= v@);
        lemma_u32_le_total();
        v@.lemma_sort_by_ensures(u32_le());
        vstd::seq_lib::lemma_sorted_unique(res@, v@.sort_by(u32_le()), u32_le());
    }
    res
}

/// The indices `0..keys.len()` in the order of a stable sort by key.
pub fn sort_indices_by_key(keys: &Vec<i64>) -> (r: Vec<usize>)
    ensures
        r@ == stable_order(keys@),
        r@.len() == keys@.len(),
        forall|k: int| 0 <= k < r@.len() ==> #[trigger] r@[k] < keys@.len(),
{
    let mut res: Vec<usize> = Vec::new();
    let n = keys.len();
    let ghost le = key_then_index(keys@);
    let mut i: usize = 0;
    while i < n
        invariant
            n == keys@.len(),
            le == key_then_index(keys@),
            0 <= i <= n,
            sorted_by(res@, le),
            res@.to_multiset() == indices(n as nat).take(i as int).to_multiset(),
            forall|k: int| 0 <= k < res@.len() ==> #[trigger] res@[k] < i,
        decreases n - i,
    {
        let x = keys[i];
        let mut pos: usize = 0;
        while pos < res.len() && keys[res[pos]] <= x
            invariant
                0 <= pos <= res@.len(),
                n == keys@.len(),
                i < n,
                x == keys@[i as int],
                forall|k: int| 0 <= k < res@.len() ==> #[trigger] res@[k] < i,
                forall|k: int| 0 <= k < pos ==> keys@[res@[k] as int] <= x,
            decreases res@.len() - pos,
        {
            pos = pos + 1;
        }
        let ghost old_res = res@;
        res.insert(pos, i);
        proof {
            assert(indices(n as nat).take(i + 1) =~= indices(n as nat).take(i as int).push(i));
            assert forall|a: int, b: int| 0 <= a < b < res@.len() implies #[trigger] le(res@[a], res@[b]) by {
                if b < pos {
                    assert(le(old_res[a], old_res[b]));
                } else if b == pos {
                    assert(res@[a] == old_res[a]);
                    assert(keys@[old_res[a] as int] <= x);
                } else if a < pos {
                    assert(keys@[old_res[a] as int] <= x);
                    assert(!(keys@[old_res[pos as int] as int] <= x));
                    if pos < b - 1 {
                        assert(le(old_res[pos as int], old_res[b - 1]));
                    }
                } else if a == pos {
                    assert(!(keys@[old_res[pos as int] as int] <= x));
                    if pos < b - 1 {
                        assert(le(old_res[pos as int], old_res[b - 1]));
                    }
                } else {
                    assert(le(old_res[a - 1], old_res[b - 1]));
                }
            }
            assert forall|k: int| 0 <= k < res@.len() implies #[trigger] res@[k] < i + 1 by {
                if k < pos {
                    assert(res@[k] == old_res[k]);
                } else if k > pos {
                    assert(res@[k] == old_res[k - 1]);
                }
            }
        }
        i = i + 1;
    }
    proof {
        assert(indices(n as nat).take(n as int) =~= indices(n as nat));
        lemma_key_then_index_total(keys@);
        indices(n as nat).lemma_sort_by_ensures(le);
        vstd::seq_lib::lemma_sorted_unique(res@, stable_order(keys@), le);
        vstd::seq_lib::to_multiset_len(res@);
        vstd::seq_lib::to_multiset_len(indices(n as nat));
    }
    res
}

} // verus!
