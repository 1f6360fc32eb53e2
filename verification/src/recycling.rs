//! Parting a staged queue into what is moved, what is gone already and what is
//! refused, before the move and after it.
use crate::cleanup::{
    decision, preflight, refusal, refusal_text, FailedItem, Preflight, StagedPath, TrashedItem,
};
use crate::platform::BinPolicy;
use vstd::prelude::*;

verus! {

/// What the system says of the path of a staged item.
#[derive(Clone, Copy, Debug)]
pub struct PathFacts {
    /// Nothing has the path any more.
    pub missing: bool,
    /// It is on a fixed drive.
    pub fixed: bool,
    /// What the bin of that drive does.
    pub policy: BinPolicy,
}

/// A staged queue, parted.
#[derive(Debug)]
pub struct Parted {
    /// To be moved to the bin.
    pub moving: Vec<StagedPath>,
    /// Gone already, which counts as recycled.
    pub trashed: Vec<TrashedItem>,
    /// Refused, with the reason.
    pub failed: Vec<FailedItem>,
}

/// What is done with a staged item.
pub open spec fn verdict(s: StagedPath, f: PathFacts) -> Preflight {
    decision(s.protected, s.size, f.missing, f.fixed, f.policy)
}

/// Id, path and size of the items with a verdict, in order.
pub open spec fn with_verdict(
    staged: Seq<StagedPath>,
    facts: Seq<PathFacts>,
    p: Preflight,
) -> Seq<(u32, Seq<char>, u64)>
    decreases staged.len(),
{
    if staged.len() == 0 {
        Seq::empty()
    } else {
        let rest = with_verdict(staged.drop_last(), facts.drop_last(), p);
        let s = staged.last();
        if verdict(s, facts.last()) == p {
            rest.push((s.id, s.path@, s.size))
        } else {
            rest
        }
    }
}

/// Id, path and reason of the refused items, in order.
pub open spec fn refusals(staged: Seq<StagedPath>, facts: Seq<PathFacts>) -> Seq<
    (u32, Seq<char>, Seq<char>),
>
    decreases staged.len(),
{
    if staged.len() == 0 {
        Seq::empty()
    } else {
        let rest = refusals(staged.drop_last(), facts.drop_last());
        let s = staged.last();
        match refusal_text(verdict(s, facts.last())) {
            Some(why) => rest.push((s.id, s.path@, why)),
            None => rest,
        }
    }
}

/// Id, path and size of staged items.
pub open spec fn staged_view(v: Seq<StagedPath>) -> Seq<(u32, Seq<char>, u64)> {
    v.map_values(|x: StagedPath| (x.id, x.path@, x.size))
}

/// Id, path and size of recycled items.
pub open spec fn trashed_view(v: Seq<TrashedItem>) -> Seq<(u32, Seq<char>, u64)> {
    v.map_values(|x: TrashedItem| (x.id, x.path@, x.size))
}

/// Id, path and reason of refused items.
pub open spec fn failed_view(v: Seq<FailedItem>) -> Seq<(u32, Seq<char>, Seq<char>)> {
    v.map_values(|x: FailedItem| (x.id, x.path@, x.reason@))
}

/// A recycled item.
fn trashed(s: &StagedPath) -> (r: TrashedItem)
    ensures
        r.id == s.id,
        r.path@ == s.path@,
        r.size == s.size,
{
    TrashedItem { id: s.id, path: s.path.clone(), size: s.size }
}

/// Parts a staged queue by what the system says of each path.
pub fn part(staged: &[StagedPath], facts: &[PathFacts]) -> (r: Parted)
    requires
        facts@.len() == staged@.len(),
    ensures
        staged_view(r.moving@) == with_verdict(staged@, facts@, Preflight::Move),
        forall|k: int| 0 <= k < r.moving@.len() ==> !(#[trigger] r.moving@[k]).protected,
        trashed_view(r.trashed@) == with_verdict(staged@, facts@, Preflight::Gone),
        failed_view(r.failed@) == refusals(staged@, facts@),
{
    let mut r = Parted { moving: Vec::new(), trashed: Vec::new(), failed: Vec::new() };
    let mut i: usize = 0;
    proof {
        assert(staged_view(r.moving@) =~= with_verdict(
            staged@.take(0),
            facts@.take(0),
            Preflight::Move,
        ));
        assert(trashed_view(r.trashed@) =~= with_verdict(
            staged@.take(0),
            facts@.take(0),
            Preflight::Gone,
        ));
        assert(failed_view(r.failed@) =~= refusals(staged@.take(0), facts@.take(0)));
    }
    while i < staged.len()
        invariant
            i <= staged.len(),
            facts@.len() == staged@.len(),
            staged_view(r.moving@) == with_verdict(
                staged@.take(i as int),
                facts@.take(i as int),
                Preflight::Move,
            ),
            forall|k: int| 0 <= k < r.moving@.len() ==> !(#[trigger] r.moving@[k]).protected,
            trashed_view(r.trashed@) == with_verdict(
                staged@.take(i as int),
                facts@.take(i as int),
                Preflight::Gone,
            ),
            failed_view(r.failed@) == refusals(staged@.take(i as int), facts@.take(i as int)),
        decreases staged.len() - i,
    {
        let s = &staged[i];
        let f: PathFacts = facts[i];
        let ghost before = r;
        proof {
            assert(staged@.take(i + 1).drop_last() =~= staged@.take(i as int));
            assert(facts@.take(i + 1).drop_last() =~= facts@.take(i as int));
            assert(staged@.take(i + 1).last() == *s);
            assert(facts@.take(i + 1).last() == f);
        }
        let p = preflight(s, f.missing, f.fixed, &f.policy);
        match p {
            Preflight::Move => {
                r.moving.push(
                    StagedPath { id: s.id, path: s.path.clone(), size: s.size, protected: false },
                );
                assert(staged_view(r.moving@) =~= staged_view(before.moving@).push(
                    (s.id, s.path@, s.size),
                ));
            },
            Preflight::Gone => {
                r.trashed.push(trashed(s));
                assert(trashed_view(r.trashed@) =~= trashed_view(before.trashed@).push(
                    (s.id, s.path@, s.size),
                ));
            },
            _ => {
                if let Some(reason) = refusal(p) {
                    let ghost why = reason@;
                    r.failed.push(FailedItem { id: s.id, path: s.path.clone(), reason });
                    assert(failed_view(r.failed@) =~= failed_view(before.failed@).push(
                        (s.id, s.path@, why),
                    ));
                }
            },
        }
        i += 1;
    }
    proof {
        assert(staged@.take(i as int) =~= staged@);
        assert(facts@.take(i as int) =~= facts@);
    }
    r
}

/// Id, path and size of the items whose move succeeded, in order.
pub open spec fn arrived(
    moving: Seq<(u32, Seq<char>, u64)>,
    outcomes: Seq<Result<(), String>>,
) -> Seq<(u32, Seq<char>, u64)>
    decreases moving.len(),
{
    if moving.len() == 0 {
        Seq::empty()
    } else {
        let rest = arrived(moving.drop_last(), outcomes.drop_last());
        if outcomes.last() is Ok {
            rest.push(moving.last())
        } else {
            rest
        }
    }
}

/// Id, path and reason of the items whose move failed, in order.
pub open spec fn stayed(
    moving: Seq<(u32, Seq<char>, u64)>,
    outcomes: Seq<Result<(), String>>,
) -> Seq<(u32, Seq<char>, Seq<char>)>
    decreases moving.len(),
{
    if moving.len() == 0 {
        Seq::empty()
    } else {
        let rest = stayed(moving.drop_last(), outcomes.drop_last());
        match outcomes.last() {
            Ok(_) => rest,
            Err(why) => rest.push((moving.last().0, moving.last().1, why@)),
        }
    }
}

/// Takes in what came of the moves: what arrived in the bin joins the recycled
/// items, what stayed joins the refused ones.
pub fn settle(parted: Parted, outcomes: &[Result<(), String>]) -> (r: (
    Vec<TrashedItem>,
    Vec<FailedItem>,
))
    requires
        outcomes@.len() == parted.moving@.len(),
    ensures
        trashed_view(r.0@) == trashed_view(parted.trashed@) + arrived(
            staged_view(parted.moving@),
            outcomes@,
        ),
        failed_view(r.1@) == failed_view(parted.failed@) + stayed(
            staged_view(parted.moving@),
            outcomes@,
        ),
{
    let moving = parted.moving;
    let mut done = parted.trashed;
    let mut failed = parted.failed;
    let ghost m = staged_view(moving@);
    let ghost first = trashed_view(done@);
    let ghost refused = failed_view(failed@);
    let mut i: usize = 0;
    proof {
        assert(first + arrived(m.take(0), outcomes@.take(0)) =~= first);
        assert(refused + stayed(m.take(0), outcomes@.take(0)) =~= refused);
    }
    while i < moving.len()
        invariant
            i <= moving.len(),
            outcomes@.len() == moving@.len(),
            m == staged_view(moving@),
            trashed_view(done@) == first + arrived(m.take(i as int), outcomes@.take(i as int)),
            failed_view(failed@) == refused + stayed(m.take(i as int), outcomes@.take(i as int)),
        decreases moving.len() - i,
    {
        let s = &moving[i];
        let ghost went = arrived(m.take(i as int), outcomes@.take(i as int));
        let ghost left = stayed(m.take(i as int), outcomes@.take(i as int));
        proof {
            assert(m.take(i + 1).drop_last() =~= m.take(i as int));
            assert(outcomes@.take(i + 1).drop_last() =~= outcomes@.take(i as int));
            assert(m.take(i + 1).last() == (s.id, s.path@, s.size));
            assert(outcomes@.take(i + 1).last() == outcomes@[i as int]);
        }
        match &outcomes[i] {
            Ok(_) => {
                let ghost before = trashed_view(done@);
                done.push(trashed(s));
                assert(trashed_view(done@) =~= before.push((s.id, s.path@, s.size)));
                assert(before.push((s.id, s.path@, s.size)) =~= first + went.push(
                    (s.id, s.path@, s.size),
                ));
            },
            Err(why) => {
                let ghost before = failed_view(failed@);
                failed.push(FailedItem { id: s.id, path: s.path.clone(), reason: why.clone() });
                assert(failed_view(failed@) =~= before.push((s.id, s.path@, why@)));
                assert(before.push((s.id, s.path@, why@)) =~= refused + left.push(
                    (s.id, s.path@, why@),
                ));
            },
        }
        i += 1;
    }
    proof {
        assert(m.take(i as int) =~= m);
        assert(outcomes@.take(i as int) =~= outcomes@);
    }
    (done, failed)
}

/// Every staged item ends in exactly one of the three lists.
pub proof fn no_item_is_lost(staged: Seq<StagedPath>, facts: Seq<PathFacts>)
    requires
        facts.len() == staged.len(),
    ensures
        with_verdict(staged, facts, Preflight::Move).len() + with_verdict(
            staged,
            facts,
            Preflight::Gone,
        ).len() + refusals(staged, facts).len() == staged.len(),
    decreases staged.len(),
{
    if staged.len() > 0 {
        no_item_is_lost(staged.drop_last(), facts.drop_last());
    }
}

/// Every moved item ends in one of the two lists.
pub proof fn no_move_is_lost(
    moving: Seq<(u32, Seq<char>, u64)>,
    outcomes: Seq<Result<(), String>>,
)
    requires
        outcomes.len() == moving.len(),
    ensures
        arrived(moving, outcomes).len() + stayed(moving, outcomes).len() == moving.len(),
    decreases moving.len(),
{
    if moving.len() > 0 {
        no_move_is_lost(moving.drop_last(), outcomes.drop_last());
    }
}

/// Where the items with a verdict came from.
proof fn verdict_places(staged: Seq<StagedPath>, facts: Seq<PathFacts>, p: Preflight) -> (at: Seq<
    int,
>)
    requires
        facts.len() == staged.len(),
    ensures
        at.len() == with_verdict(staged, facts, p).len(),
        forall|a: int, b: int| 0 <= a < b < at.len() ==> #[trigger] at[a] < #[trigger] at[b],
        forall|k: int|
            0 <= k < at.len() ==> {
                &&& 0 <= #[trigger] at[k] < staged.len()
                &&& verdict(staged[at[k]], facts[at[k]]) == p
                &&& with_verdict(staged, facts, p)[k] == (
                    staged[at[k]].id,
                    staged[at[k]].path@,
                    staged[at[k]].size,
                )
            },
        forall|i: int|
            0 <= i < staged.len() && verdict(#[trigger] staged[i], facts[i]) == p ==> at.contains(i),
    decreases staged.len(),
{
    if staged.len() == 0 {
        Seq::empty()
    } else {
        let less = staged.drop_last();
        let lf = facts.drop_last();
        let rest = verdict_places(less, lf, p);
        let n = staged.len() - 1;
        let at = if verdict(staged.last(), facts.last()) == p {
            rest.push(n)
        } else {
            rest
        };
        assert forall|i: int| 0 <= i < less.len() implies #[trigger] less[i] == staged[i] && lf[i]
            == facts[i] by {}
        assert forall|k: int| 0 <= k < at.len() implies {
            &&& 0 <= #[trigger] at[k] < staged.len()
            &&& verdict(staged[at[k]], facts[at[k]]) == p
            &&& with_verdict(staged, facts, p)[k] == (
                staged[at[k]].id,
                staged[at[k]].path@,
                staged[at[k]].size,
            )
        } by {
            if k < rest.len() {
                assert(at[k] == rest[k]);
                assert(less[rest[k]] == staged[rest[k]]);
            }
        }
        assert forall|a: int, b: int| 0 <= a < b < at.len() implies #[trigger] at[a]
            < #[trigger] at[b] by {
            assert(at[a] == rest[a]);
            if b < rest.len() {
                assert(at[b] == rest[b]);
            }
        }
        assert forall|i: int|
            0 <= i < staged.len() && verdict(#[trigger] staged[i], facts[i])
                == p implies at.contains(i) by {
            if i < n {
                assert(less[i] == staged[i]);
                let q = rest.index_of(i);
                assert(at[q] == i);
            } else {
                assert(at[rest.len() as int] == i);
            }
        }
        at
    }
}

/// Where the refused items came from.
proof fn refusal_places(staged: Seq<StagedPath>, facts: Seq<PathFacts>) -> (at: Seq<int>)
    requires
        facts.len() == staged.len(),
    ensures
        at.len() == refusals(staged, facts).len(),
        forall|a: int, b: int| 0 <= a < b < at.len() ==> #[trigger] at[a] < #[trigger] at[b],
        forall|k: int|
            0 <= k < at.len() ==> {
                &&& 0 <= #[trigger] at[k] < staged.len()
                &&& refusal_text(verdict(staged[at[k]], facts[at[k]])) is Some
                &&& refusals(staged, facts)[k] == (
                    staged[at[k]].id,
                    staged[at[k]].path@,
                    refusal_text(verdict(staged[at[k]], facts[at[k]]))->0,
                )
            },
        forall|i: int|
            0 <= i < staged.len() && refusal_text(
                verdict(#[trigger] staged[i], facts[i]),
            ) is Some ==> at.contains(i),
    decreases staged.len(),
{
    if staged.len() == 0 {
        Seq::empty()
    } else {
        let less = staged.drop_last();
        let lf = facts.drop_last();
        let rest = refusal_places(less, lf);
        let n = staged.len() - 1;
        let at = if refusal_text(verdict(staged.last(), facts.last())) is Some {
            rest.push(n)
        } else {
            rest
        };
        assert forall|i: int| 0 <= i < less.len() implies #[trigger] less[i] == staged[i] && lf[i]
            == facts[i] by {}
        assert forall|k: int| 0 <= k < at.len() implies {
            &&& 0 <= #[trigger] at[k] < staged.len()
            &&& refusal_text(verdict(staged[at[k]], facts[at[k]])) is Some
            &&& refusals(staged, facts)[k] == (
                staged[at[k]].id,
                staged[at[k]].path@,
                refusal_text(verdict(staged[at[k]], facts[at[k]]))->0,
            )
        } by {
            if k < rest.len() {
                assert(at[k] == rest[k]);
                assert(less[rest[k]] == staged[rest[k]]);
            }
        }
        assert forall|a: int, b: int| 0 <= a < b < at.len() implies #[trigger] at[a]
            < #[trigger] at[b] by {
            assert(at[a] == rest[a]);
            if b < rest.len() {
                assert(at[b] == rest[b]);
            }
        }
        assert forall|i: int|
            0 <= i < staged.len() && refusal_text(
                verdict(#[trigger] staged[i], facts[i]),
            ) is Some implies at.contains(i) by {
            if i < n {
                assert(less[i] == staged[i]);
                let q = rest.index_of(i);
                assert(at[q] == i);
            } else {
                assert(at[rest.len() as int] == i);
            }
        }
        at
    }
}

/// A queue is parted in order: to be moved is what is neither protected nor
/// missing and lies on a fixed drive whose bin keeps it; gone is what is missing
/// and not protected; the rest is refused. The three results say where each
/// entry of the three lists came from.
pub proof fn the_queue_is_parted(staged: &[StagedPath], facts: &[PathFacts], r: Parted) -> (at: (
    Seq<int>,
    Seq<int>,
    Seq<int>,
))
    requires
        facts@.len() == staged@.len(),
        call_ensures(part, (staged, facts), r),
    ensures
        at.0.len() == r.moving@.len(),
        at.1.len() == r.trashed@.len(),
        at.2.len() == r.failed@.len(),
        forall|a: int, b: int| 0 <= a < b < at.0.len() ==> #[trigger] at.0[a] < #[trigger] at.0[b],
        forall|a: int, b: int| 0 <= a < b < at.1.len() ==> #[trigger] at.1[a] < #[trigger] at.1[b],
        forall|a: int, b: int| 0 <= a < b < at.2.len() ==> #[trigger] at.2[a] < #[trigger] at.2[b],
        forall|k: int|
            0 <= k < at.0.len() ==> {
                let s = staged@[#[trigger] at.0[k]];
                &&& 0 <= at.0[k] < staged@.len()
                &&& r.moving@[k].id == s.id
                &&& r.moving@[k].path@ == s.path@
                &&& r.moving@[k].size == s.size
                &&& !r.moving@[k].protected
            },
        forall|k: int|
            0 <= k < at.1.len() ==> {
                let s = staged@[#[trigger] at.1[k]];
                &&& 0 <= at.1[k] < staged@.len()
                &&& r.trashed@[k].id == s.id
                &&& r.trashed@[k].path@ == s.path@
                &&& r.trashed@[k].size == s.size
            },
        forall|k: int|
            0 <= k < at.2.len() ==> {
                let s = staged@[#[trigger] at.2[k]];
                &&& 0 <= at.2[k] < staged@.len()
                &&& r.failed@[k].id == s.id
                &&& r.failed@[k].path@ == s.path@
            },
        forall|i: int|
            0 <= i < staged@.len() ==> {
                let s = #[trigger] staged@[i];
                let f = facts@[i];
                let kept = f.policy.max_capacity_mb is None || s.size
                    <= f.policy.max_capacity_mb->0 * 1048576;
                &&& at.0.contains(i) <==> !s.protected && !f.missing && f.fixed
                    && !f.policy.nuke_on_delete && kept
                &&& at.1.contains(i) <==> !s.protected && f.missing
                &&& at.2.contains(i) <==> s.protected || (!f.missing && (!f.fixed
                    || f.policy.nuke_on_delete || !kept))
            },
{
    let a0 = verdict_places(staged@, facts@, Preflight::Move);
    let a1 = verdict_places(staged@, facts@, Preflight::Gone);
    let a2 = refusal_places(staged@, facts@);
    assert(staged_view(r.moving@).len() == r.moving@.len());
    assert(trashed_view(r.trashed@).len() == r.trashed@.len());
    assert(failed_view(r.failed@).len() == r.failed@.len());
    assert forall|k: int| 0 <= k < a0.len() implies {
        let s = staged@[#[trigger] a0[k]];
        &&& 0 <= a0[k] < staged@.len()
        &&& r.moving@[k].id == s.id
        &&& r.moving@[k].path@ == s.path@
        &&& r.moving@[k].size == s.size
    } by {
        assert(staged_view(r.moving@)[k] == (
            r.moving@[k].id,
            r.moving@[k].path@,
            r.moving@[k].size,
        ));
    }
    assert forall|k: int| 0 <= k < a1.len() implies {
        let s = staged@[#[trigger] a1[k]];
        &&& 0 <= a1[k] < staged@.len()
        &&& r.trashed@[k].id == s.id
        &&& r.trashed@[k].path@ == s.path@
        &&& r.trashed@[k].size == s.size
    } by {
        assert(trashed_view(r.trashed@)[k] == (
            r.trashed@[k].id,
            r.trashed@[k].path@,
            r.trashed@[k].size,
        ));
    }
    assert forall|k: int| 0 <= k < a2.len() implies {
        let s = staged@[#[trigger] a2[k]];
        &&& 0 <= a2[k] < staged@.len()
        &&& r.failed@[k].id == s.id
        &&& r.failed@[k].path@ == s.path@
    } by {
        assert(failed_view(r.failed@)[k] == (
            r.failed@[k].id,
            r.failed@[k].path@,
            r.failed@[k].reason@,
        ));
    }
    assert forall|i: int| 0 <= i < staged@.len() implies {
        let s = #[trigger] staged@[i];
        let f = facts@[i];
        &&& a0.contains(i) <==> verdict(s, f) == Preflight::Move
        &&& a1.contains(i) <==> verdict(s, f) == Preflight::Gone
        &&& a2.contains(i) <==> refusal_text(verdict(s, f)) is Some
    } by {
        if a0.contains(i) {
            let q = a0.index_of(i);
            assert(a0[q] == i);
        }
        if a1.contains(i) {
            let q = a1.index_of(i);
            assert(a1[q] == i);
        }
        if a2.contains(i) {
            let q = a2.index_of(i);
            assert(a2[q] == i);
        }
    }
    (a0, a1, a2)
}

/// One move more ends among the recycled items where it succeeded, else among
/// the refused ones with what the system said; what stood in the lists before
/// stays.
pub proof fn a_move_ends_where_its_outcome_says(
    parted: Parted,
    outcomes: &[Result<(), String>],
    r: (Vec<TrashedItem>, Vec<FailedItem>),
    less: Parted,
    fewer: &[Result<(), String>],
    q: (Vec<TrashedItem>, Vec<FailedItem>),
)
    requires
        outcomes@.len() == parted.moving@.len(),
        outcomes@.len() > 0,
        less.moving@ == parted.moving@.drop_last(),
        less.trashed@ == parted.trashed@,
        less.failed@ == parted.failed@,
        fewer@ == outcomes@.drop_last(),
        call_ensures(settle, (parted, outcomes), r),
        call_ensures(settle, (less, fewer), q),
    ensures
        ({
            let s = parted.moving@.last();
            match outcomes@.last() {
                Ok(_) => {
                    &&& trashed_view(r.0@) == trashed_view(q.0@).push((s.id, s.path@, s.size))
                    &&& failed_view(r.1@) == failed_view(q.1@)
                },
                Err(why) => {
                    &&& trashed_view(r.0@) == trashed_view(q.0@)
                    &&& failed_view(r.1@) == failed_view(q.1@).push((s.id, s.path@, why@))
                },
            }
        }),
        less.moving@.len() == 0 ==> trashed_view(q.0@) == trashed_view(parted.trashed@)
            && failed_view(q.1@) == failed_view(parted.failed@),
{
    let m = staged_view(parted.moving@);
    let s = parted.moving@.last();
    assert(m.drop_last() =~= staged_view(less.moving@));
    assert(m.last() == (s.id, s.path@, s.size));
    if less.moving@.len() == 0 {
        assert(trashed_view(q.0@) =~= trashed_view(parted.trashed@));
        assert(failed_view(q.1@) =~= failed_view(parted.failed@));
    }
    match outcomes@.last() {
        Ok(_) => {
            assert(trashed_view(r.0@) =~= trashed_view(q.0@).push((s.id, s.path@, s.size)));
        },
        Err(why) => {
            assert(failed_view(r.1@) =~= failed_view(q.1@).push((s.id, s.path@, why@)));
        },
    }
}

} // verus!
