//! Grouping the pages of a scanned PDF by student: for each user name, which
//! PDF page holds which page of that user's quiz.

use vstd::prelude::*;

verus! {

/// Code-point lexicographic order of texts: the order in which `String`s sort
/// (UTF-8 bytes compare as the code points they encode).
pub open spec fn text_lt(a: Seq<char>, b: Seq<char>) -> bool
    decreases a.len(),
{
    if a.len() == 0 {
        b.len() > 0
    } else if b.len() == 0 {
        false
    } else if a[0] != b[0] {
        (a[0] as int) < (b[0] as int)
    } else {
        text_lt(a.drop_first(), b.drop_first())
    }
}

/// No text sorts before itself, no two texts sort before each other, and of
/// two different texts one sorts before the other.
pub proof fn lemma_text_lt_total(a: Seq<char>, b: Seq<char>)
    ensures
        !text_lt(a, a),
        !(text_lt(a, b) && text_lt(b, a)),
        a != b ==> text_lt(a, b) || text_lt(b, a),
    decreases a.len(),
{
    if a.len() > 0 {
        lemma_text_lt_total(a.drop_first(), a.drop_first());
    }
    if a.len() > 0 && b.len() > 0 && a[0] == b[0] {
        lemma_text_lt_total(a.drop_first(), b.drop_first());
        if a.drop_first() == b.drop_first() {
            assert(a =~= seq![a[0]] + a.drop_first());
            assert(b =~= seq![b[0]] + b.drop_first());
        }
    }
    if a.len() == 0 && b.len() == 0 {
        assert(a =~= b);
    }
    if a.len() > 0 && b.len() > 0 && a[0] != b[0] {
        assert((a[0] as int) != (b[0] as int));
    }
}

/// The text order is transitive.
pub proof fn lemma_text_lt_transitive(a: Seq<char>, b: Seq<char>, c: Seq<char>)
    requires
        text_lt(a, b),
        text_lt(b, c),
    ensures
        text_lt(a, c),
    decreases a.len(),
{
    if a.len() > 0 && b.len() > 0 && c.len() > 0 && a[0] == b[0] && b[0] == c[0] {
        lemma_text_lt_transitive(a.drop_first(), b.drop_first(), c.drop_first());
    }
}

/// Texts that agree on their first `k` characters compare as their remainders do.
proof fn lemma_text_lt_skip(a: Seq<char>, b: Seq<char>, k: int)
    requires
        0 <= k <= a.len(),
        k <= b.len(),
        a.take(k) == b.take(k),
    ensures
        text_lt(a, b) == text_lt(a.skip(k), b.skip(k)),
    decreases k,
{
    if k == 0 {
        assert(a.skip(0) =~= a);
        assert(b.skip(0) =~= b);
    } else {
        assert(a[0] == a.take(k)[0]);
        assert(b[0] == b.take(k)[0]);
        assert(a.drop_first().take(k - 1) =~= a.take(k).drop_first());
        assert(b.drop_first().take(k - 1) =~= b.take(k).drop_first());
        lemma_text_lt_skip(a.drop_first(), b.drop_first(), k - 1);
        assert(a.drop_first().skip(k - 1) =~= a.skip(k));
        assert(b.drop_first().skip(k - 1) =~= b.skip(k));
    }
}

/// Compares two texts in code-point order: negative, zero or positive as `a`
/// sorts before, equals or sorts after `b`.
pub fn compare_text(a: &str, b: &str) -> (c: i8)
    ensures
        (c == 0) == (a@ == b@),
        (c < 0) == text_lt(a@, b@),
        (c > 0) == text_lt(b@, a@),
{
    proof {
        lemma_text_lt_total(a@, b@);
    }
    let na = a.unicode_len();
    let nb = b.unicode_len();
    let mut k: usize = 0;
    while k < na && k < nb
        invariant
            na == a@.len(),
            nb == b@.len(),
            0 <= k <= na,
            k <= nb,
            a@.take(k as int) == b@.take(k as int),
        decreases na - k,
    {
        let ca = a.get_char(k);
        let cb = b.get_char(k);
        if ca != cb {
            proof {
                lemma_text_lt_skip(a@, b@, k as int);
                lemma_text_lt_skip(b@, a@, k as int);
                assert(a@.skip(k as int)[0] == ca);
                assert(b@.skip(k as int)[0] == cb);
            }
            if (ca as u32) < (cb as u32) {
                return -1;
            } else {
                return 1;
            }
        }
        assert(a@.take(k + 1) =~= a@.take(k as int).push(ca));
        assert(b@.take(k + 1) =~= b@.take(k as int).push(cb));
        k = k + 1;
    }
    proof {
        lemma_text_lt_skip(a@, b@, k as int);
        lemma_text_lt_skip(b@, a@, k as int);
    }
    if na == nb {
        assert(a@ =~= a@.take(k as int));
        assert(b@ =~= b@.take(k as int));
        0
    } else if na < nb {
        -1
    } else {
        1
    }
}

/// The tag that a scanned page carries, as plain values: user name and page number.
pub open spec fn tag_view(t: Option<(String, u32)>) -> Option<(Seq<char>, u32)> {
    match t {
        Some((u, p)) => Some((u@, p)),
        None => None,
    }
}

/// The tags of the pages of a PDF, as plain values.
pub open spec fn tags_view(tags: Seq<Option<(String, u32)>>) -> Seq<Option<(Seq<char>, u32)>> {
    tags.map_values(|t: Option<(String, u32)>| tag_view(t))
}

/// An entry of the index, as plain values.
pub open spec fn entry_view(e: (String, Vec<(u32, usize)>)) -> (Seq<char>, Seq<(u32, usize)>) {
    (e.0@, e.1@)
}

/// The index, as plain values.
pub open spec fn index_view(ix: Seq<(String, Vec<(u32, usize)>)>) -> Seq<(Seq<char>, Seq<(u32, usize)>)> {
    ix.map_values(|e: (String, Vec<(u32, usize)>)| entry_view(e))
}

/// The last of the first `n` PDF pages that carries the tag of page `p` of user `u`.
pub open spec fn last_carrier(t: Seq<Option<(Seq<char>, u32)>>, n: int, u: Seq<char>, p: u32) -> Option<usize>
    decreases n,
{
    if n <= 0 {
        None
    } else if t[n - 1] == Some((u, p)) {
        Some((n - 1) as usize)
    } else {
        last_carrier(t, n - 1, u, p)
    }
}

/// The user names are in text order, each listed once.
pub open spec fn users_sorted(ix: Seq<(Seq<char>, Seq<(u32, usize)>)>) -> bool {
    forall|a: int, b: int| 0 <= a < b < ix.len() ==> text_lt(#[trigger] ix[a].0, #[trigger] ix[b].0)
}

/// The pages of a quiz are in page order, each listed once.
pub open spec fn pages_sorted(ps: Seq<(u32, usize)>) -> bool {
    forall|a: int, b: int| 0 <= a < b < ps.len() ==> #[trigger] ps[a].0 < #[trigger] ps[b].0
}

/// Page `p` of user `u` is listed in the index.
pub open spec fn listed(ix: Seq<(Seq<char>, Seq<(u32, usize)>)>, u: Seq<char>, p: u32) -> bool {
    exists|k: int, j: int| 0 <= k < ix.len() && 0 <= j < ix[k].1.len() && #[trigger] ix[k].0 == u && #[trigger] ix[k].1[j].0 == p
}

/// `ix` indexes the first `n` tags: the users in text order, each with a
/// nonempty list of quiz pages in page order; each listed quiz page names the
/// last PDF page that carries its tag, and every tag carried is listed.
pub open spec fn indexes(ix: Seq<(Seq<char>, Seq<(u32, usize)>)>, t: Seq<Option<(Seq<char>, u32)>>, n: int) -> bool {
    &&& users_sorted(ix)
    &&& forall|k: int| 0 <= k < ix.len() ==> pages_sorted(#[trigger] ix[k].1) && ix[k].1.len() > 0
    &&& forall|k: int, j: int| 0 <= k < ix.len() && 0 <= j < ix[k].1.len() ==>
            last_carrier(t, n, ix[k].0, #[trigger] ix[k].1[j].0) == Some(ix[k].1[j].1)
    &&& forall|i: int| 0 <= i < n && #[trigger] t[i] is Some ==> listed(ix, (t[i]->0).0, (t[i]->0).1)
}

/// Records quiz page `p` as held by PDF page `n` in a sorted list of pages,
/// in place of an earlier record of `p`.
fn add_page(pages: Vec<(u32, usize)>, p: u32, n: usize) -> (r: Vec<(u32, usize)>)
    requires
        pages_sorted(pages@),
    ensures
        pages_sorted(r@),
        r@.contains((p, n)),
        forall|j: int| 0 <= j < r@.len() && (#[trigger] r@[j]).0 == p ==> r@[j].1 == n,
        forall|j: int| 0 <= j < r@.len() && (#[trigger] r@[j]).0 != p ==> pages@.contains(r@[j]),
        forall|j: int| 0 <= j < pages@.len() && (#[trigger] pages@[j]).0 != p ==> r@.contains(pages@[j]),
{
    let ghost old_pages = pages@;
    let mut pages = pages;
    let mut j: usize = 0;
    while j < pages.len() && pages[j].0 < p
        invariant
            pages@ == old_pages,
            0 <= j <= pages@.len(),
            forall|a: int| 0 <= a < j ==> (#[trigger] pages@[a]).0 < p,
        decreases pages@.len() - j,
    {
        j = j + 1;
    }
    if j < pages.len() && pages[j].0 == p {
        pages.set(j, (p, n));
        assert(pages@[j as int] == (p, n));
        assert forall|a: int| 0 <= a < pages@.len() && (#[trigger] pages@[a]).0 != p implies old_pages.contains(pages@[a]) by {
            assert(old_pages[a] == pages@[a]);
        }
        assert forall|a: int| 0 <= a < old_pages.len() && (#[trigger] old_pages[a]).0 != p implies pages@.contains(old_pages[a]) by {
            assert(old_pages[a] == pages@[a]);
        }
    } else {
        assert forall|a: int| j <= a < old_pages.len() implies (#[trigger] old_pages[a]).0 > p by {
            if a > j {
                assert(old_pages[j as int].0 < old_pages[a].0);
            }
        }
        pages.insert(j, (p, n));
        assert(pages@[j as int] == (p, n));
        assert forall|a: int| 0 <= a < pages@.len() && (#[trigger] pages@[a]).0 != p implies old_pages.contains(pages@[a]) by {
            if a < j {
                assert(old_pages[a] == pages@[a]);
            } else {
                assert(old_pages[a - 1] == pages@[a]);
            }
        }
        assert forall|a: int| 0 <= a < old_pages.len() && (#[trigger] old_pages[a]).0 != p implies pages@.contains(old_pages[a]) by {
            if a < j {
                assert(old_pages[a] == pages@[a]);
            } else {
                assert(old_pages[a] == pages@[a + 1]);
            }
        }
    }
    pages
}

/// The position of user `u` in an index sorted by user, and whether it is
/// there; where it is not, the position at which it belongs.
fn find_user(ix: &Vec<(String, Vec<(u32, usize)>)>, u: &str) -> (r: (usize, bool))
    requires
        users_sorted(index_view(ix@)),
    ensures
        r.0 <= ix@.len(),
        forall|a: int| 0 <= a < r.0 ==> text_lt((#[trigger] ix@[a]).0@, u@),
        r.1 ==> r.0 < ix@.len() && ix@[r.0 as int].0@ == u@,
        !r.1 ==> forall|a: int| r.0 <= a < ix@.len() ==> text_lt(u@, (#[trigger] ix@[a]).0@),
{
    let ghost v = index_view(ix@);
    let mut j: usize = 0;
    while j < ix.len()
        invariant
            v == index_view(ix@),
            users_sorted(v),
            0 <= j <= ix@.len(),
            forall|a: int| 0 <= a < j ==> text_lt((#[trigger] ix@[a]).0@, u@),
        decreases ix@.len() - j,
    {
        let c = compare_text(ix[j].0.as_str(), u);
        if c == 0 {
            return (j, true);
        }
        if c > 0 {
            assert forall|a: int| j <= a < ix@.len() implies text_lt(u@, (#[trigger] ix@[a]).0@) by {
                if a > j {
                    assert(v[j as int].0 == ix@[j as int].0@ && v[a].0 == ix@[a].0@);
                    lemma_text_lt_transitive(u@, ix@[j as int].0@, ix@[a].0@);
                }
            }
            return (j, false);
        }
        j = j + 1;
    }
    (j, false)
}

/// Listing a tag that is not yet in the index, for a user that is not yet in it.
proof fn lemma_insert_user(ix: Seq<(Seq<char>, Seq<(u32, usize)>)>, pos: int, t: Seq<Option<(Seq<char>, u32)>>, n: int, u: Seq<char>, p: u32)
    requires
        indexes(ix, t, n),
        0 <= n < t.len(),
        t[n] == Some((u, p)),
        0 <= pos <= ix.len(),
        forall|a: int| 0 <= a < pos ==> text_lt((#[trigger] ix[a]).0, u),
        forall|a: int| pos <= a < ix.len() ==> text_lt(u, (#[trigger] ix[a]).0),
    ensures
        indexes(ix.insert(pos, (u, seq![(p, n as usize)])), t, n + 1),
{
    let r = ix.insert(pos, (u, seq![(p, n as usize)]));
    assert forall|a: int, b: int| 0 <= a < b < r.len() implies text_lt(#[trigger] r[a].0, #[trigger] r[b].0) by {
        if a < pos && b == pos {
        } else if a < pos && b > pos {
            assert(r[b] == ix[b - 1]);
            lemma_text_lt_transitive(ix[a].0, u, ix[b - 1].0);
        } else if a == pos {
            assert(r[b] == ix[b - 1]);
        } else if a > pos {
            assert(r[a] == ix[a - 1] && r[b] == ix[b - 1]);
        }
    }
    assert forall|k: int| 0 <= k < r.len() implies pages_sorted(#[trigger] r[k].1) && r[k].1.len() > 0 by {
        if k < pos {
        } else if k > pos {
            assert(r[k] == ix[k - 1]);
        }
    }
    assert forall|k: int, j: int| 0 <= k < r.len() && 0 <= j < r[k].1.len() implies
        last_carrier(t, n + 1, r[k].0, #[trigger] r[k].1[j].0) == Some(r[k].1[j].1) by {
        if k != pos {
            let kk = if k < pos { k } else { k - 1 };
            assert(r[k] == ix[kk]);
            lemma_text_lt_total(ix[kk].0, u);
            assert(last_carrier(t, n, ix[kk].0, ix[kk].1[j].0) == Some(ix[kk].1[j].1));
        }
    }
    assert forall|i: int| 0 <= i < n + 1 && #[trigger] t[i] is Some implies listed(r, (t[i]->0).0, (t[i]->0).1) by {
        if i == n {
            assert(r[pos].0 == u && r[pos].1[0].0 == p);
        } else {
            let (k, j) = choose|k: int, j: int| 0 <= k < ix.len() && 0 <= j < ix[k].1.len() && #[trigger] ix[k].0 == (t[i]->0).0
                && #[trigger] ix[k].1[j].0 == (t[i]->0).1;
            let kk = if k < pos { k } else { k + 1 };
            assert(r[kk] == ix[k]);
            assert(r[kk].0 == (t[i]->0).0 && r[kk].1[j].0 == (t[i]->0).1);
        }
    }
}

/// Listing a tag for a user that is already in the index.
proof fn lemma_update_user(
    ix: Seq<(Seq<char>, Seq<(u32, usize)>)>,
    k: int,
    pages: Seq<(u32, usize)>,
    t: Seq<Option<(Seq<char>, u32)>>,
    n: int,
    u: Seq<char>,
    p: u32,
)
    requires
        indexes(ix, t, n),
        0 <= n < t.len(),
        t[n] == Some((u, p)),
        0 <= k < ix.len(),
        ix[k].0 == u,
        pages_sorted(pages),
        pages.contains((p, n as usize)),
        forall|j: int| 0 <= j < pages.len() && (#[trigger] pages[j]).0 == p ==> pages[j].1 == n,
        forall|j: int| 0 <= j < pages.len() && (#[trigger] pages[j]).0 != p ==> ix[k].1.contains(pages[j]),
        forall|j: int| 0 <= j < ix[k].1.len() && (#[trigger] ix[k].1[j]).0 != p ==> pages.contains(ix[k].1[j]),
    ensures
        indexes(ix.update(k, (u, pages)), t, n + 1),
{
    let r = ix.update(k, (u, pages));
    assert forall|a: int, b: int| 0 <= a < b < r.len() implies text_lt(#[trigger] r[a].0, #[trigger] r[b].0) by {
        assert(r[a].0 == ix[a].0 && r[b].0 == ix[b].0);
    }
    assert forall|kk: int| 0 <= kk < r.len() implies pages_sorted(#[trigger] r[kk].1) && r[kk].1.len() > 0 by {
        if kk == k {
            let w = choose|w: int| 0 <= w < pages.len() && pages[w] == (p, n as usize);
        }
    }
    assert forall|kk: int, j: int| 0 <= kk < r.len() && 0 <= j < r[kk].1.len() implies
        last_carrier(t, n + 1, r[kk].0, #[trigger] r[kk].1[j].0) == Some(r[kk].1[j].1) by {
        if kk != k {
            assert(r[kk] == ix[kk]);
            lemma_text_lt_total(ix[kk].0, u);
            if kk < k {
                assert(text_lt(ix[kk].0, ix[k].0));
            } else {
                assert(text_lt(ix[k].0, ix[kk].0));
            }
            assert(last_carrier(t, n, ix[kk].0, ix[kk].1[j].0) == Some(ix[kk].1[j].1));
        } else if pages[j].0 != p {
            let w = choose|w: int| 0 <= w < ix[k].1.len() && ix[k].1[w] == pages[j];
            assert(last_carrier(t, n, ix[k].0, ix[k].1[w].0) == Some(ix[k].1[w].1));
        }
    }
    assert forall|i: int| 0 <= i < n + 1 && #[trigger] t[i] is Some implies listed(r, (t[i]->0).0, (t[i]->0).1) by {
        let (tu, tp) = t[i]->0;
        if tu == u && tp == p {
            let w = choose|w: int| 0 <= w < pages.len() && pages[w] == (p, n as usize);
            assert(r[k].0 == tu && r[k].1[w].0 == tp);
        } else {
            let (kk, j) = choose|kk: int, j: int| 0 <= kk < ix.len() && 0 <= j < ix[kk].1.len() && #[trigger] ix[kk].0 == tu
                && #[trigger] ix[kk].1[j].0 == tp;
            if kk != k {
                assert(r[kk] == ix[kk]);
                assert(r[kk].0 == tu && r[kk].1[j].0 == tp);
            } else {
                lemma_text_lt_total(u, u);
                if tp == p {
                    let w = choose|w: int| 0 <= w < pages.len() && pages[w] == (p, n as usize);
                    assert(r[k].0 == tu && r[k].1[w].0 == tp);
                } else {
                    let w = choose|w: int| 0 <= w < pages.len() && pages[w] == ix[k].1[j];
                    assert(r[k].0 == tu && r[k].1[w].0 == tp);
                }
            }
        }
    }
}

/// Records that PDF page `n` carries the tag of page `p` of `user`.
fn add_tag(
    ix: Vec<(String, Vec<(u32, usize)>)>,
    user: &String,
    p: u32,
    n: usize,
    Ghost(t): Ghost<Seq<Option<(Seq<char>, u32)>>>,
) -> (r: Vec<(String, Vec<(u32, usize)>)>)
    requires
        indexes(index_view(ix@), t, n as int),
        n < t.len(),
        t[n as int] == Some((user@, p)),
    ensures
        indexes(index_view(r@), t, n + 1),
{
    let ghost v = index_view(ix@);
    let mut ix = ix;
    let (k, found) = find_user(&ix, user.as_str());
    if found {
        let (u, pages) = ix.remove(k);
        assert(v[k as int] == (u@, pages@));
        assert(pages_sorted(v[k as int].1));
        let pages = add_page(pages, p, n);
        ix.insert(k, (u, pages));
        proof {
            lemma_update_user(v, k as int, pages@, t, n as int, user@, p);
            assert(index_view(ix@) =~= v.update(k as int, (user@, pages@)));
        }
    } else {
        let mut pages: Vec<(u32, usize)> = Vec::new();
        pages.push((p, n));
        let name = user.clone();
        proof {
            assert forall|a: int| 0 <= a < k implies text_lt((#[trigger] v[a]).0, user@) by {
                assert(v[a].0 == ix@[a].0@);
            }
            assert forall|a: int| k <= a < v.len() implies text_lt(user@, (#[trigger] v[a]).0) by {
                assert(v[a].0 == ix@[a].0@);
            }
            lemma_insert_user(v, k as int, t, n as int, user@, p);
            assert(pages@ =~= seq![(p, n)]);
        }
        ix.insert(k, (name, pages));
        assert(index_view(ix@) =~= v.insert(k as int, (user@, seq![(p, n)])));
    }
    ix
}

/// The index of the scanned pages: `tags[i]` is the tag that PDF page `i`
/// carries, if any. For each user, in text order, the quiz pages found, in
/// page order, each with the last PDF page that carries its tag.
pub fn index_pages(tags: &Vec<Option<(String, u32)>>) -> (ix: Vec<(String, Vec<(u32, usize)>)>)
    ensures
        indexes(index_view(ix@), tags_view(tags@), tags@.len() as int),
{
    let ghost t = tags_view(tags@);
    let mut ix: Vec<(String, Vec<(u32, usize)>)> = Vec::new();
    let mut i: usize = 0;
    assert(index_view(ix@) =~= Seq::<(Seq<char>, Seq<(u32, usize)>)>::empty());
    while i < tags.len()
        invariant
            t == tags_view(tags@),
            0 <= i <= tags@.len(),
            indexes(index_view(ix@), t, i as int),
        decreases tags@.len() - i,
    {
        match &tags[i] {
            Some((user, p)) => {
                assert(t[i as int] == Some((user@, *p)));
                ix = add_tag(ix, user, *p, i, Ghost(t));
            },
            None => {
                let ghost v = index_view(ix@);
                assert forall|k: int, j: int| 0 <= k < v.len() && 0 <= j < v[k].1.len() implies
                    last_carrier(t, i + 1, v[k].0, #[trigger] v[k].1[j].0) == Some(v[k].1[j].1) by {
                    assert(last_carrier(t, i as int, v[k].0, v[k].1[j].0) == Some(v[k].1[j].1));
                }
            },
        }
        i = i + 1;
    }
    ix
}

} // verus!
