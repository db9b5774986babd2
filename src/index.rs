//! Exact nearest-neighbour selection over scored candidates.
//!
//! A candidate is a pair `(score, id)`: the score is the distance of a stored
//! vector from the query (lower is closer), the id names the point. Ties of
//! score are broken by ascending id, so the order of results is total and
//! deterministic.
use vstd::prelude::*;

verus! {

/// `a` comes strictly before `b`: lower score, or equal score and lower id.
pub open spec fn before(a: (u32, u64), b: (u32, u64)) -> bool {
    a.0 < b.0 || (a.0 == b.0 && a.1 < b.1)
}

/// Every element comes strictly before each later one.
pub open spec fn ascending(s: Seq<(u32, u64)>) -> bool {
    forall|i: int, j: int| 0 <= i < j < s.len() ==> before(s[i], s[j])
}

/// No two candidates share an id.
pub open spec fn distinct_ids(s: Seq<(u32, u64)>) -> bool {
    forall|i: int, j: int| 0 <= i < s.len() && 0 <= j < s.len() && i != j ==> s[i].1 != s[j].1
}

pub open spec fn min_nat(a: nat, b: nat) -> nat {
    if a <= b {
        a
    } else {
        b
    }
}

/// `r` holds the `k` candidates of `cands` that come first in the order of
/// `before` (all of them where there are fewer than `k`), in that order.
pub open spec fn is_nearest(cands: Seq<(u32, u64)>, k: nat, r: Seq<(u32, u64)>) -> bool {
    &&& r.len() == min_nat(k, cands.len())
    &&& ascending(r)
    &&& forall|i: int| 0 <= i < r.len() ==> cands.contains(#[trigger] r[i])
    &&& forall|c: (u32, u64), i: int|
        #![trigger cands.contains(c), r[i]]
        cands.contains(c) && !r.contains(c) && 0 <= i < r.len() ==> before(r[i], c)
}

proof fn lemma_ascending_no_duplicates(s: Seq<(u32, u64)>)
    requires
        ascending(s),
    ensures
        s.no_duplicates(),
{
    assert forall|i: int, j: int| 0 <= i < s.len() && 0 <= j < s.len() && i != j implies s[i]
        != s[j] by {
        if i < j {
            assert(before(s[i], s[j]));
        } else {
            assert(before(s[j], s[i]));
        }
    }
}

proof fn lemma_distinct_ids_no_duplicates(s: Seq<(u32, u64)>)
    requires
        distinct_ids(s),
    ensures
        s.no_duplicates(),
{
}

/// A duplicate-free `r` drawn from a duplicate-free `c` is no longer than `c`,
/// and as long as `c` when it holds all of `c`.
proof fn lemma_subseq_len(r: Seq<(u32, u64)>, c: Seq<(u32, u64)>)
    requires
        r.no_duplicates(),
        c.no_duplicates(),
        forall|i: int| 0 <= i < r.len() ==> c.contains(#[trigger] r[i]),
    ensures
        r.len() <= c.len(),
        (forall|i: int| 0 <= i < c.len() ==> r.contains(#[trigger] c[i])) ==> r.len() == c.len(),
{
    r.unique_seq_to_set();
    c.unique_seq_to_set();
    assert(r.to_set().subset_of(c.to_set()));
    vstd::set_lib::lemma_len_subset(r.to_set(), c.to_set());
    if forall|i: int| 0 <= i < c.len() ==> r.contains(#[trigger] c[i]) {
        assert(c.to_set().subset_of(r.to_set()));
        vstd::set_lib::lemma_len_subset(c.to_set(), r.to_set());
    }
}

/// `c` is eligible as the next selection: it comes after `last`, where
/// there is a last selection.
pub open spec fn after_last(has_last: bool, last: (u32, u64), c: (u32, u64)) -> bool {
    !has_last || before(last, c)
}

/// Scans `cands` for the first candidate after `last` (any candidate where
/// there is none yet).
fn first_after(cands: &Vec<(u32, u64)>, has_last: bool, last: (u32, u64)) -> (r: (bool, (u32, u64)))
    ensures
        r.0 ==> cands@.contains(r.1) && after_last(has_last, last, r.1),
        forall|m: int|
            0 <= m < cands@.len() && after_last(has_last, last, #[trigger] cands@[m]) ==> r.0 && (
            r.1 == cands@[m] || before(r.1, cands@[m])),
{
    let n: usize = cands.len();
    let mut found: bool = false;
    let mut best: (u32, u64) = (0, 0);
    let mut j: usize = 0;
    while j < n
        invariant
            n == cands@.len(),
            j <= n,
            found ==> cands@.contains(best) && after_last(has_last, last, best),
            forall|m: int|
                0 <= m < j && after_last(has_last, last, #[trigger] cands@[m]) ==> found && (
                best == cands@[m] || before(best, cands@[m])),
        decreases n - j,
    {
        let c = cands[j];
        let eligible: bool = !has_last || last.0 < c.0 || (last.0 == c.0 && last.1 < c.1);
        if eligible && (!found || c.0 < best.0 || (c.0 == best.0 && c.1 < best.1)) {
            best = c;
            found = true;
        }
        j = j + 1;
    }
    (found, best)
}

/// Selects the `k` nearest candidates, in ascending order of `(score, id)`.
///
/// Each round scans all candidates for the first one after the last one
/// selected, so the selection is exact.
pub fn nearest(cands: &Vec<(u32, u64)>, k: usize) -> (r: Vec<(u32, u64)>)
    requires
        distinct_ids(cands@),
    ensures
        is_nearest(cands@, k as nat, r@),
{
    let n: usize = cands.len();
    let mut r: Vec<(u32, u64)> = Vec::new();
    let mut more: bool = true;
    while more && r.len() < k
        invariant
            n == cands@.len(),
            distinct_ids(cands@),
            r@.len() <= k,
            ascending(r@),
            forall|i: int| 0 <= i < r@.len() ==> cands@.contains(#[trigger] r@[i]),
            r@.len() > 0 ==> forall|j: int|
                0 <= j < n && !before(r@.last(), #[trigger] cands@[j]) ==> r@.contains(
                    cands@[j],
                ),
            !more ==> forall|j: int| 0 <= j < n ==> r@.contains(#[trigger] cands@[j]),
        decreases k - r@.len(), (if more { 1int } else { 0int }),
    {
        let has_last: bool = r.len() > 0;
        let mut last: (u32, u64) = (0, 0);
        if has_last {
            last = r[r.len() - 1];
        }
        let (found, best) = first_after(cands, has_last, last);
        if found {
            let ghost old_r = r@;
            r.push(best);
            assert forall|i: int, i2: int| 0 <= i < i2 < r@.len() implies before(r@[i], r@[i2]) by {
                if i2 == r@.len() - 1 && i < i2 - 1 {
                    assert(before(old_r[i], old_r.last()));
                }
            }
            assert forall|i: int| 0 <= i < r@.len() implies cands@.contains(#[trigger] r@[i]) by {
                if i < old_r.len() {
                    assert(old_r.contains(old_r[i]));
                }
            }
            assert forall|jj: int|
                0 <= jj < n && !before(r@.last(), #[trigger] cands@[jj]) implies r@.contains(
                cands@[jj],
            ) by {
                if after_last(has_last, last, cands@[jj]) {
                    assert(cands@[jj] == best);
                    assert(r@[r@.len() - 1] == best);
                } else {
                    if cands@[jj] == last {
                        assert(r@[old_r.len() - 1] == last);
                    } else {
                        let w = choose|w: int| 0 <= w < old_r.len() && old_r[w] == cands@[jj];
                        assert(r@[w] == cands@[jj]);
                    }
                }
            }
        } else {
            more = false;
            assert forall|jj: int| 0 <= jj < n implies r@.contains(#[trigger] cands@[jj]) by {
                assert(!after_last(has_last, last, cands@[jj]));
            }
        }
    }
    proof {
        lemma_ascending_no_duplicates(r@);
        lemma_distinct_ids_no_duplicates(cands@);
        lemma_subseq_len(r@, cands@);
        assert forall|c: (u32, u64), i: int|
            #![trigger cands@.contains(c), r@[i]]
            cands@.contains(c) && !r@.contains(c) && 0 <= i < r@.len() implies before(r@[i], c) by {
            let jj = choose|jj: int| 0 <= jj < n && cands@[jj] == c;
            assert(before(r@.last(), cands@[jj]));
            if i < r@.len() - 1 {
                assert(before(r@[i], r@[r@.len() - 1]));
            }
        }
    }
    r
}

/// A selection holds at most `k` candidates, in non-decreasing order of
/// score; where `k` is at least the number of candidates it holds them all.
pub proof fn lemma_nearest_properties(cands: Seq<(u32, u64)>, k: nat, r: Seq<(u32, u64)>)
    requires
        distinct_ids(cands),
        is_nearest(cands, k, r),
    ensures
        r.len() <= k,
        forall|i: int, j: int| 0 <= i < j < r.len() ==> r[i].0 <= r[j].0,
        k >= cands.len() ==> r.len() == cands.len() && forall|c: (u32, u64)|
            cands.contains(c) ==> #[trigger] r.contains(c),
{
    assert forall|i: int, j: int| 0 <= i < j < r.len() implies r[i].0 <= r[j].0 by {
        assert(before(r[i], r[j]));
    }
    if k >= cands.len() {
        assert forall|c: (u32, u64)| cands.contains(c) implies #[trigger] r.contains(c) by {
            if !r.contains(c) {
                lemma_ascending_no_duplicates(r);
                lemma_distinct_ids_no_duplicates(cands);
                r.unique_seq_to_set();
                cands.unique_seq_to_set();
                assert(r.to_set().subset_of(cands.to_set().remove(c)));
                vstd::set_lib::lemma_len_subset(r.to_set(), cands.to_set().remove(c));
            }
        }
    }
}

} // verus!
