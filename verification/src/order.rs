//! Ordering by size: largest first, the smaller id first among equals.
use vstd::prelude::*;

verus! {

/// `a` may stand before `b`: it is larger, or as large with an id not above.
pub open spec fn before(a: (u64, u32), b: (u64, u32)) -> bool {
    a.0 > b.0 || (a.0 == b.0 && a.1 <= b.1)
}

/// Every entry may stand before each later one.
pub open spec fn ranked(s: Seq<(u64, u32)>) -> bool {
    forall|i: int, j: int| 0 <= i < j < s.len() ==> before(#[trigger] s[i], #[trigger] s[j])
}

/// The relation [`before`].
pub open spec fn before_rel() -> spec_fn((u64, u32), (u64, u32)) -> bool {
    |a: (u64, u32), b: (u64, u32)| before(a, b)
}

/// The entries in order: the largest first, equal ones by ascending id.
pub open spec fn ranking(s: Seq<(u64, u32)>) -> Seq<(u64, u32)> {
    s.sort_by(before_rel())
}

/// Entries in order are the ranking of what they were.
pub proof fn ranking_is_unique(s: Seq<(u64, u32)>, r: Seq<(u64, u32)>)
    requires
        ranked(r),
        r.to_multiset() == s.to_multiset(),
    ensures
        r == ranking(s),
{
    let leq = before_rel();
    assert(vstd::relations::total_ordering(leq));
    s.lemma_sort_by_ensures(leq);
    assert(vstd::relations::sorted_by(r, leq));
    vstd::seq_lib::lemma_sorted_unique(r, ranking(s), leq);
}

/// The ranking is in order and holds the same entries.
pub proof fn ranking_is_ranked(s: Seq<(u64, u32)>)
    ensures
        ranked(ranking(s)),
        ranking(s).to_multiset() == s.to_multiset(),
        ranking(s).len() == s.len(),
        forall|x: (u64, u32)| #[trigger] ranking(s).contains(x) <==> s.contains(x),
        s.no_duplicates() ==> ranking(s).no_duplicates(),
{
    let leq = before_rel();
    assert(vstd::relations::total_ordering(leq));
    s.lemma_sort_by_ensures(leq);
    assert forall|i: int, j: int| 0 <= i < j < ranking(s).len() implies before(
        #[trigger] ranking(s)[i],
        #[trigger] ranking(s)[j],
    ) by {
        assert(leq(ranking(s)[i], ranking(s)[j]));
    }
    rank_keeps(s, ranking(s));
}

/// Appending adds the counts.
proof fn multiset_of_sum(a: Seq<(u64, u32)>, b: Seq<(u64, u32)>)
    ensures
        (a + b).to_multiset() == a.to_multiset().add(b.to_multiset()),
{
    vstd::seq_lib::lemma_multiset_commutative(a, b);
}

/// Merges two ranked lists.
fn merge(a: &Vec<(u64, u32)>, b: &Vec<(u64, u32)>) -> (r: Vec<(u64, u32)>)
    requires
        ranked(a@),
        ranked(b@),
    ensures
        ranked(r@),
        r@.to_multiset() == a@.to_multiset().add(b@.to_multiset()),
{
    let mut out: Vec<(u64, u32)> = Vec::new();
    let mut i: usize = 0;
    let mut j: usize = 0;
    proof {
        a@.to_multiset_ensures();
        assert(a@.take(0) =~= Seq::empty());
        assert(b@.take(0) =~= Seq::empty());
        Seq::<(u64, u32)>::empty().to_multiset_ensures();
        assert(out@.to_multiset() =~= a@.take(0).to_multiset().add(b@.take(0).to_multiset()));
    }
    while i < a.len() || j < b.len()
        invariant
            i <= a.len(),
            j <= b.len(),
            ranked(a@),
            ranked(b@),
            ranked(out@),
            forall|k: int, m: int|
                0 <= k < out@.len() && i <= m < a@.len() ==> before(
                    #[trigger] out@[k],
                    #[trigger] a@[m],
                ),
            forall|k: int, m: int|
                0 <= k < out@.len() && j <= m < b@.len() ==> before(
                    #[trigger] out@[k],
                    #[trigger] b@[m],
                ),
            out@.to_multiset() == a@.take(i as int).to_multiset().add(
                b@.take(j as int).to_multiset(),
            ),
        decreases a.len() - i + b.len() - j,
    {
        let from_a = if i >= a.len() {
            false
        } else if j >= b.len() {
            true
        } else {
            let (ka, ia): (u64, u32) = a[i];
            let (kb, ib): (u64, u32) = b[j];
            ka > kb || (ka == kb && ia <= ib)
        };
        let ghost old_out = out@;
        if from_a {
            let e = a[i];
            proof {
                old_out.to_multiset_ensures();
                a@.take(i as int).to_multiset_ensures();
                assert(a@.take(i + 1) =~= a@.take(i as int).push(e));
            }
            out.push(e);
            assert(out@.to_multiset() =~= a@.take(i + 1).to_multiset().add(
                b@.take(j as int).to_multiset(),
            ));
            i += 1;
        } else {
            let e = b[j];
            proof {
                old_out.to_multiset_ensures();
                b@.take(j as int).to_multiset_ensures();
                assert(b@.take(j + 1) =~= b@.take(j as int).push(e));
            }
            out.push(e);
            assert(out@.to_multiset() =~= a@.take(i as int).to_multiset().add(
                b@.take(j + 1).to_multiset(),
            ));
            j += 1;
        }
    }
    assert(a@.take(i as int) =~= a@);
    assert(b@.take(j as int) =~= b@);
    out
}

/// Sorts largest first; entries of one size stand in ascending id order.
pub fn rank(items: &[(u64, u32)]) -> (r: Vec<(u64, u32)>)
    ensures
        ranked(r@),
        r@.to_multiset() == items@.to_multiset(),
        r@ == ranking(items@),
    decreases items.len(),
{
    if items.len() <= 1 {
        let mut out: Vec<(u64, u32)> = Vec::new();
        if items.len() == 1 {
            out.push(items[0]);
        }
        assert(out@ =~= items@);
        proof {
            ranking_is_unique(items@, out@);
        }
        out
    } else {
        let mid: usize = items.len() / 2;
        let left = rank(vstd::slice::slice_subrange(items, 0, mid));
        let right = rank(vstd::slice::slice_subrange(items, mid, items.len()));
        let out = merge(&left, &right);
        proof {
            multiset_of_sum(
                items@.subrange(0, mid as int),
                items@.subrange(mid as int, items@.len() as int),
            );
            assert(items@.subrange(0, mid as int) + items@.subrange(
                mid as int,
                items@.len() as int,
            ) =~= items@);
            ranking_is_unique(items@, out@);
        }
        out
    }
}

/// A ranking keeps the number of entries and every entry.
pub proof fn rank_keeps(a: Seq<(u64, u32)>, b: Seq<(u64, u32)>)
    requires
        a.to_multiset() == b.to_multiset(),
    ensures
        a.len() == b.len(),
        forall|x: (u64, u32)| a.contains(x) <==> b.contains(x),
        a.no_duplicates() ==> b.no_duplicates(),
{
    a.to_multiset_ensures();
    b.to_multiset_ensures();
    assert forall|x: (u64, u32)| a.contains(x) <==> b.contains(x) by {
        assert(a.contains(x) <==> a.to_multiset().count(x) > 0);
        assert(b.contains(x) <==> b.to_multiset().count(x) > 0);
    }
    if a.no_duplicates() {
        a.lemma_multiset_has_no_duplicates();
        b.lemma_multiset_has_no_duplicates_conv();
    }
}

/// Picks items out of a list by distinct positions, in the given order.
pub fn pick<T>(items: Vec<T>, positions: &Vec<u32>) -> (r: Vec<T>)
    requires
        positions@.no_duplicates(),
        forall|i: int| 0 <= i < positions@.len() ==> (#[trigger] positions@[i]) < items@.len(),
    ensures
        r@.len() == positions@.len(),
        forall|i: int| 0 <= i < r@.len() ==> #[trigger] r@[i] == items@[positions@[i] as int],
{
    let ghost all = items@;
    let n: usize = items.len();
    let mut rest = items;
    // Slot `k` holds item `n - 1 - k`.
    let mut slots: Vec<Option<T>> = Vec::new();
    while rest.len() > 0
        invariant
            rest@.len() + slots@.len() == n,
            n == all.len(),
            rest@ == all.take(rest@.len() as int),
            forall|k: int| 0 <= k < slots@.len() ==> #[trigger] slots@[k] == Some(all[n - 1 - k]),
        decreases rest.len(),
    {
        let ghost before = rest@;
        let x = rest.pop();
        assert(rest@ =~= all.take(rest@.len() as int));
        assert(x == Some(all[before.len() - 1]));
        slots.push(x);
    }
    let mut out: Vec<T> = Vec::new();
    let mut i: usize = 0;
    while i < positions.len()
        invariant
            i <= positions.len(),
            n == all.len(),
            slots@.len() == n,
            positions@.no_duplicates(),
            forall|k: int| 0 <= k < positions@.len() ==> (#[trigger] positions@[k]) < n,
            out@.len() == i,
            forall|k: int| 0 <= k < i ==> #[trigger] out@[k] == all[positions@[k] as int],
            forall|k: int|
                i <= k < positions@.len() ==> slots@[n - 1 - #[trigger] positions@[k]] == Some(
                    all[positions@[k] as int],
                ),
        decreases positions.len() - i,
    {
        assert(positions@[i as int] < n);
        let k: usize = n - 1 - positions[i] as usize;
        let mut taken: Option<T> = None;
        let ghost old_slots = slots@;
        std::mem::swap(&mut taken, &mut slots[k]);
        proof {
            assert(taken == Some(all[positions@[i as int] as int]));
            assert forall|q: int| i + 1 <= q < positions@.len() implies slots@[n - 1
                - #[trigger] positions@[q]] == Some(all[positions@[q] as int]) by {
                assert(positions@[q] != positions@[i as int]);
                assert(slots@[n - 1 - positions@[q]] == old_slots[n - 1 - positions@[q]]);
            }
        }
        if let Some(x) = taken {
            out.push(x);
        }
        i += 1;
    }
    out
}

/// A ranking holds the same entries, by descending size and among equal sizes by
/// ascending id.
pub proof fn a_ranking_stands_largest_first(items: &[(u64, u32)], r: Vec<(u64, u32)>)
    requires
        call_ensures(rank, (items,), r),
    ensures
        r@.to_multiset() == items@.to_multiset(),
        forall|i: int, j: int|
            0 <= i < j < r@.len() ==> (#[trigger] r@[i]).0 > (#[trigger] r@[j]).0 || (r@[i].0
                == r@[j].0 && r@[i].1 <= r@[j].1),
{
    ranking_is_ranked(items@);
    assert forall|i: int, j: int| 0 <= i < j < r@.len() implies (#[trigger] r@[i]).0 > (
    #[trigger] r@[j]).0 || (r@[i].0 == r@[j].0 && r@[i].1 <= r@[j].1) by {
        assert(before(r@[i], r@[j]));
    }
}

} // verus!
