//! Facts about sequences that several modules use.
use vstd::prelude::*;

verus! {

/// Filtering one element more keeps it exactly where it passes.
pub proof fn filter_step<A>(s: Seq<A>, i: int, p: spec_fn(A) -> bool)
    requires
        0 <= i < s.len(),
    ensures
        s.take(i + 1).filter(p) == (if p(s[i]) {
            s.take(i).filter(p).push(s[i])
        } else {
            s.take(i).filter(p)
        }),
{
    reveal(Seq::filter);
    assert(s.take(i + 1).drop_last() =~= s.take(i));
    assert(s.take(i + 1).last() == s[i]);
}

/// Filtering nothing gives nothing.
pub proof fn filter_nothing<A>(p: spec_fn(A) -> bool)
    ensures
        Seq::<A>::empty().filter(p) == Seq::<A>::empty(),
{
    reveal(Seq::filter);
}

/// Filtering with one element more at the end keeps it exactly where it passes.
pub proof fn filter_push<A>(s: Seq<A>, a: A, p: spec_fn(A) -> bool)
    ensures
        s.push(a).filter(p) == (if p(a) {
            s.filter(p).push(a)
        } else {
            s.filter(p)
        }),
{
    reveal(Seq::filter);
    assert(s.push(a).drop_last() =~= s);
}

/// Putting an element in anywhere adds it to the elements.
pub proof fn insert_multiset<A>(s: Seq<A>, i: int, a: A)
    requires
        0 <= i <= s.len(),
    ensures
        s.insert(i, a).to_multiset() == s.to_multiset().insert(a),
{
    let head = s.take(i);
    let tail = s.skip(i);
    assert(s =~= head + tail);
    assert(s.insert(i, a) =~= head.push(a) + tail);
    vstd::seq_lib::lemma_multiset_commutative(head, tail);
    vstd::seq_lib::lemma_multiset_commutative(head.push(a), tail);
    head.to_multiset_ensures();
    assert(head.push(a).to_multiset() =~= head.to_multiset().insert(a));
    assert(s.insert(i, a).to_multiset() =~= s.to_multiset().insert(a));
}

/// Every kept element is an element that passes, and every such element is kept.
pub proof fn filter_members<A>(s: Seq<A>, p: spec_fn(A) -> bool)
    ensures
        forall|x: A| #[trigger] s.filter(p).contains(x) <==> s.contains(x) && p(x),
    decreases s.len(),
{
    reveal(Seq::filter);
    if s.len() > 0 {
        let rest = s.drop_last();
        let sub = rest.filter(p);
        let whole = s.filter(p);
        filter_members(rest, p);
        assert forall|x: A| #[trigger] whole.contains(x) <==> s.contains(x) && p(x) by {
            assert(sub.contains(x) <==> rest.contains(x) && p(x));
            assert(s[s.len() - 1] == s.last());
            if rest.contains(x) {
                let j = rest.index_of(x);
                assert(s[j] == x);
            }
            if s.contains(x) && !rest.contains(x) {
                let j = s.index_of(x);
                if j < rest.len() {
                    assert(rest[j] == x);
                }
                assert(x == s.last());
            }
            if p(s.last()) {
                assert(whole == sub.push(s.last()));
                assert(whole[sub.len() as int] == s.last());
                if sub.contains(x) {
                    let j = sub.index_of(x);
                    assert(whole[j] == x);
                }
                if whole.contains(x) {
                    let j = whole.index_of(x);
                    if j < sub.len() {
                        assert(sub[j] == x);
                    }
                }
            } else {
                assert(whole == sub);
            }
        }
    }
}

/// What a prefix keeps is the beginning of what the whole keeps.
pub proof fn filter_prefix<A>(s: Seq<A>, i: int, p: spec_fn(A) -> bool)
    requires
        0 <= i <= s.len(),
    ensures
        s.take(i).filter(p).len() <= s.filter(p).len(),
        s.filter(p).take(s.take(i).filter(p).len() as int) == s.take(i).filter(p),
{
    let head = s.take(i);
    let tail = s.skip(i);
    assert(s =~= head + tail);
    Seq::filter_distributes_over_add(head, tail, p);
    assert((head.filter(p) + tail.filter(p)).take(head.filter(p).len() as int) =~= head.filter(p));
}

/// Distinct numbers below `n` are at most `n` many.
pub proof fn distinct_fit(s: Seq<u32>, n: int)
    requires
        s.no_duplicates(),
        0 <= n,
        forall|i: int| 0 <= i < s.len() ==> (#[trigger] s[i]) < n,
    ensures
        s.len() <= n,
{
    let ints = s.map_values(|x: u32| x as int);
    let range = vstd::set_lib::set_int_range(0, n);
    vstd::set_lib::lemma_int_range(0, n);
    assert(ints.no_duplicates()) by {
        assert forall|i: int, j: int|
            0 <= i < ints.len() && 0 <= j < ints.len() && i != j implies ints[i] != ints[j] by {
            assert(s[i] != s[j]);
        }
    }
    assert forall|x: int| ints.to_set().contains(x) implies range.contains(x) by {
        let k = ints.index_of(x);
        assert(s[k] < n);
    }
    ints.unique_seq_to_set();
    vstd::set_lib::lemma_len_subset(ints.to_set(), range);
}

/// `a` is what is left of `b` when some elements are taken out.
pub open spec fn is_part<A>(a: Seq<A>, b: Seq<A>) -> bool
    decreases b.len(),
{
    if a.len() == 0 {
        true
    } else if b.len() == 0 {
        false
    } else {
        ||| a.last() == b.last() && is_part(a.drop_last(), b.drop_last())
        ||| is_part(a, b.drop_last())
    }
}

/// Every element of a part is an element of the whole.
pub proof fn part_members<A>(a: Seq<A>, b: Seq<A>)
    requires
        is_part(a, b),
    ensures
        forall|x: A| #[trigger] a.contains(x) ==> b.contains(x),
    decreases b.len(),
{
    if a.len() > 0 && b.len() > 0 {
        let front = b.drop_last();
        assert(b[b.len() - 1] == b.last());
        if a.last() == b.last() && is_part(a.drop_last(), front) {
            part_members(a.drop_last(), front);
            assert forall|x: A| #[trigger] a.contains(x) implies b.contains(x) by {
                let i = a.index_of(x);
                if i < a.len() - 1 {
                    assert(a.drop_last()[i] == x);
                    assert(a.drop_last().contains(x));
                    assert(front.contains(x));
                    let j = front.index_of(x);
                    assert(b[j] == x);
                }
            }
        } else {
            part_members(a, front);
            assert forall|x: A| #[trigger] a.contains(x) implies b.contains(x) by {
                assert(front.contains(x));
                let j = front.index_of(x);
                assert(b[j] == x);
            }
        }
    }
}

/// A part of a list is a part of the list with more behind it.
pub proof fn part_of_more<A>(a: Seq<A>, b: Seq<A>, c: Seq<A>)
    requires
        is_part(a, b),
    ensures
        is_part(a, b + c),
    decreases c.len(),
{
    if c.len() == 0 {
        assert(b + c =~= b);
    } else {
        assert((b + c).drop_last() =~= b + c.drop_last());
        part_of_more(a, b, c.drop_last());
    }
}

/// Parts side by side are a part of the wholes side by side.
pub proof fn parts_join<A>(a: Seq<A>, b: Seq<A>, c: Seq<A>, d: Seq<A>)
    requires
        is_part(a, b),
        is_part(c, d),
    ensures
        is_part(a + c, b + d),
    decreases d.len(),
{
    if c.len() == 0 {
        assert(a + c =~= a);
        part_of_more(a, b, d);
    } else {
        assert((b + d).drop_last() =~= b + d.drop_last());
        assert((b + d).last() == d.last());
        if c.last() == d.last() && is_part(c.drop_last(), d.drop_last()) {
            assert((a + c).drop_last() =~= a + c.drop_last());
            parts_join(a, b, c.drop_last(), d.drop_last());
        } else {
            parts_join(a, b, c, d.drop_last());
        }
    }
}

/// What passes a stricter test is a part of what passes the laxer one, also where
/// the stricter one is put to a part.
pub proof fn part_filtered<A>(a: Seq<A>, b: Seq<A>, p: spec_fn(A) -> bool, q: spec_fn(A) -> bool)
    requires
        is_part(a, b),
        forall|x: A| #[trigger] p(x) ==> q(x),
    ensures
        is_part(a.filter(p), b.filter(q)),
    decreases b.len(),
{
    reveal(Seq::filter);
    if a.len() > 0 {
        let fb = b.drop_last().filter(q);
        if a.last() == b.last() && is_part(a.drop_last(), b.drop_last()) {
            let fa = a.drop_last().filter(p);
            part_filtered(a.drop_last(), b.drop_last(), p, q);
            if p(a.last()) {
                part_of_itself(seq![a.last()]);
                parts_join(fa, fb, seq![a.last()], seq![a.last()]);
                assert(fa + seq![a.last()] =~= fa.push(a.last()));
                assert(fb + seq![a.last()] =~= fb.push(a.last()));
            } else if q(b.last()) {
                part_of_more(fa, fb, seq![b.last()]);
                assert(fb + seq![b.last()] =~= fb.push(b.last()));
            }
        } else {
            part_filtered(a, b.drop_last(), p, q);
            if q(b.last()) {
                part_of_more(a.filter(p), fb, seq![b.last()]);
                assert(fb + seq![b.last()] =~= fb.push(b.last()));
            }
        }
    }
}

/// A list is a part of itself.
pub proof fn part_of_itself<A>(a: Seq<A>)
    ensures
        is_part(a, a),
    decreases a.len(),
{
    if a.len() > 0 {
        part_of_itself(a.drop_last());
    }
}

/// What a filter keeps of distinct elements is distinct.
pub proof fn filter_distinct<A>(s: Seq<A>, p: spec_fn(A) -> bool)
    requires
        s.no_duplicates(),
    ensures
        s.filter(p).no_duplicates(),
    decreases s.len(),
{
    reveal(Seq::filter);
    if s.len() > 0 {
        let init = s.drop_last();
        filter_distinct(init, p);
        filter_members(init, p);
        let kept = init.filter(p);
        assert(!init.contains(s.last())) by {
            if init.contains(s.last()) {
                let i = init.index_of(s.last());
                assert(s[i] == s[s.len() - 1]);
            }
        }
        if p(s.last()) {
            assert(s.filter(p) =~= kept.push(s.last()));
            assert forall|i: int, j: int|
                0 <= i < kept.len() + 1 && 0 <= j < kept.len() + 1 && i != j implies kept.push(
                s.last(),
            )[i] != kept.push(s.last())[j] by {
                if i < kept.len() {
                    assert(kept.contains(kept[i]));
                }
                if j < kept.len() {
                    assert(kept.contains(kept[j]));
                }
            }
        }
    }
}

/// Where the elements that a filter keeps stood.
pub proof fn filter_places<A>(s: Seq<A>, p: spec_fn(A) -> bool) -> (at: Seq<int>)
    ensures
        at.len() == s.filter(p).len(),
        forall|a: int, b: int| 0 <= a < b < at.len() ==> #[trigger] at[a] < #[trigger] at[b],
        forall|k: int|
            0 <= k < at.len() ==> {
                &&& 0 <= #[trigger] at[k] < s.len()
                &&& s.filter(p)[k] == s[at[k]]
                &&& p(s[at[k]])
            },
        forall|i: int| 0 <= i < s.len() ==> (at.contains(i) <==> p(#[trigger] s[i])),
    decreases s.len(),
{
    reveal(Seq::filter);
    if s.len() == 0 {
        Seq::empty()
    } else {
        let less = s.drop_last();
        let rest = filter_places(less, p);
        let n = s.len() - 1;
        let at = if p(s.last()) {
            rest.push(n)
        } else {
            rest
        };
        assert forall|k: int| 0 <= k < at.len() implies {
            &&& 0 <= #[trigger] at[k] < s.len()
            &&& s.filter(p)[k] == s[at[k]]
            &&& p(s[at[k]])
        } by {
            if k < rest.len() {
                assert(at[k] == rest[k]);
                assert(less[rest[k]] == s[rest[k]]);
            }
        }
        assert forall|a: int, b: int| 0 <= a < b < at.len() implies #[trigger] at[a]
            < #[trigger] at[b] by {
            assert(at[a] == rest[a]);
            if b < rest.len() {
                assert(at[b] == rest[b]);
            }
        }
        assert forall|i: int| 0 <= i < s.len() implies (at.contains(i) <==> p(#[trigger] s[i])) by {
            if i < n {
                assert(less[i] == s[i]);
                if rest.contains(i) {
                    let q = rest.index_of(i);
                    assert(at[q] == i);
                }
            } else if p(s[i]) {
                assert(at[rest.len() as int] == i);
            }
            if at.contains(i) {
                let q = at.index_of(i);
                assert(at[q] == i);
                assert(p(s[at[q]]));
            }
        }
        at
    }
}

} // verus!
