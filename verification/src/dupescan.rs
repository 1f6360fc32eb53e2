//! The search for duplicates as a sequence of steps: the library says which
//! files to read, the caller reads them and hands back what it found.
use crate::dupes;
use crate::dupes::{Candidate, DupeGroup, DupesResult, HashedFile, GROUPS_CAP};
use crate::rollup;
use crate::seqs;
use crate::shares;
use crate::tree::Tree;
use vstd::prelude::*;

verus! {

/// The sizes of the candidates.
pub open spec fn sizes_of(c: Seq<Candidate>) -> Seq<u64> {
    c.map_values(|x: Candidate| x.size)
}

/// The digests by candidate, from those by target: a candidate that is no
/// target has none.
pub open spec fn spread(targets: Seq<u32>, digests: Seq<Option<[u8; 32]>>, n: nat) -> Seq<
    Option<[u8; 32]>,
> {
    Seq::new(
        n,
        |i: int|
            if targets.contains(i as u32) {
                digests[targets.index_of(i as u32)]
            } else {
                None
            },
    )
}

/// A search under way.
#[derive(Debug)]
pub struct DupeScan {
    /// Generation of the tree that is searched.
    pub generation: u64,
    pub candidates: Vec<Candidate>,
    /// Size of each candidate.
    pub sizes: Vec<u64>,
    /// The candidates whose prefix is to be read.
    pub targets: Vec<u32>,
    /// Prefix digest of each candidate, where it was read.
    pub prefixes: Vec<Option<[u8; 32]>>,
    /// The candidates that share size and prefix with another.
    pub survivors: Vec<u32>,
}

/// What all groups waste together.
pub open spec fn wasted_over(h: Seq<HashedFile>, groups: Seq<(u64, u32)>) -> int
    decreases groups.len(),
{
    if groups.len() == 0 {
        0
    } else {
        wasted_over(h, groups.drop_last()) + dupes::wasted_by(h, groups.last().1 as int)
    }
}

/// The group shown at a position tells the ranked group at that position.
pub open spec fn shown_at(r: DupesResult, h: Seq<HashedFile>, i: int) -> bool {
    let k = dupes::ranked_groups(h)[i].1 as int;
    let c = dupes::copies(h, k, h.len());
    &&& r.groups@[i].id == i
    &&& r.groups@[i].size == h[k].size
    &&& r.groups@[i].wasted == dupes::wasted_by(h, k)
    &&& r.groups@[i].count == c.len()
    &&& r.groups@[i].paths@.len() == c.len()
    &&& forall|j: int|
        0 <= j < c.len() ==> (#[trigger] r.groups@[i].paths@[j])@ == h[c[j]].path@
}

/// The result tells the duplicates among the hashed files: the most wasteful
/// groups, and what all groups waste.
pub open spec fn reports(r: DupesResult, h: Seq<HashedFile>) -> bool {
    &&& r.groups@.len() == shares::first_n(dupes::ranked_groups(h), GROUPS_CAP as int).len()
    &&& forall|i: int| 0 <= i < r.groups@.len() ==> #[trigger] shown_at(r, h, i)
    &&& r.wasted_total == rollup::capped(wasted_over(h, dupes::ranked_groups(h)))
}

impl DupeScan {
    /// What holds of a search at every step.
    pub open spec fn wf(&self) -> bool {
        &&& self.candidates@.len() <= u32::MAX
        &&& self.sizes@ == sizes_of(self.candidates@)
        &&& self.targets@ == dupes::size_mates(self.sizes@, self.sizes@.len())
        &&& self.prefixes@.len() == self.candidates@.len()
        &&& self.survivors@ == dupes::twins(self.sizes@, self.prefixes@, self.sizes@.len())
    }

    /// The hashed files describe the survivors whose content could be read.
    pub open spec fn hashed(
        &self,
        h: Seq<HashedFile>,
        fulls: Seq<Option<[u8; 32]>>,
        known: Seq<Option<(u64, u64)>>,
    ) -> bool {
        dupes::all_hashed(
            h,
            self.candidates@,
            self.survivors@,
            self.prefixes@,
            fulls,
            known,
            dupes::readable(self.candidates@, self.survivors@, self.prefixes@, fulls),
        )
    }
}

/// Each index is larger than those before it.
spec fn ascending(s: Seq<u32>) -> bool {
    forall|a: int, b: int| 0 <= a < b < s.len() ==> (#[trigger] s[a]) < (#[trigger] s[b])
}

/// The indices are in range and ascend.
proof fn mates_bound(sizes: Seq<u64>, n: nat)
    requires
        n <= sizes.len() <= u32::MAX,
    ensures
        forall|k: int|
            0 <= k < dupes::size_mates(sizes, n).len() ==> (#[trigger] dupes::size_mates(
                sizes,
                n,
            )[k]) < n,
        ascending(dupes::size_mates(sizes, n)),
        dupes::size_mates(sizes, n).no_duplicates(),
    decreases n,
{
    if n > 0 {
        mates_bound(sizes, (n - 1) as nat);
        let rest = dupes::size_mates(sizes, (n - 1) as nat);
        let whole = dupes::size_mates(sizes, n);
        assert forall|k: int| 0 <= k < whole.len() implies (#[trigger] whole[k]) < n by {
            if k < rest.len() {
                assert(whole[k] == rest[k]);
            }
        }
        assert forall|a: int, b: int| 0 <= a < b < whole.len() implies (#[trigger] whole[a]) < (
        #[trigger] whole[b]) by {
            assert(whole[a] == rest[a]);
            if b < rest.len() {
                assert(whole[b] == rest[b]);
            }
        }
        assert(whole.no_duplicates()) by {
            assert forall|a: int, b: int|
                0 <= a < whole.len() && 0 <= b < whole.len() && a != b implies whole[a]
                != whole[b] by {
                if a < b {
                    assert(whole[a] < whole[b]);
                } else {
                    assert(whole[b] < whole[a]);
                }
            }
        }
    }
}

proof fn twins_bound(sizes: Seq<u64>, digests: Seq<Option<[u8; 32]>>, n: nat)
    requires
        n <= sizes.len() <= u32::MAX,
    ensures
        forall|k: int|
            0 <= k < dupes::twins(sizes, digests, n).len() ==> (#[trigger] dupes::twins(
                sizes,
                digests,
                n,
            )[k]) < n,
        dupes::twins(sizes, digests, n).len() <= n,
    decreases n,
{
    if n > 0 {
        twins_bound(sizes, digests, (n - 1) as nat);
        let rest = dupes::twins(sizes, digests, (n - 1) as nat);
        let whole = dupes::twins(sizes, digests, n);
        assert forall|k: int| 0 <= k < whole.len() implies (#[trigger] whole[k]) < n by {
            if k < rest.len() {
                assert(whole[k] == rest[k]);
            }
        }
    }
}

/// Without digests nothing has a twin.
proof fn no_twins(sizes: Seq<u64>, digests: Seq<Option<[u8; 32]>>, n: nat)
    requires
        n <= sizes.len(),
        digests.len() == sizes.len(),
        forall|i: int| 0 <= i < digests.len() ==> (#[trigger] digests[i]) is None,
    ensures
        dupes::twins(sizes, digests, n) == Seq::<u32>::empty(),
    decreases n,
{
    if n > 0 {
        no_twins(sizes, digests, (n - 1) as nat);
        assert(digests[n - 1] is None);
    }
}

proof fn readable_len(
    cands: Seq<Candidate>,
    survivors: Seq<u32>,
    prefixes: Seq<Option<[u8; 32]>>,
    fulls: Seq<Option<[u8; 32]>>,
)
    ensures
        dupes::readable(cands, survivors, prefixes, fulls).len() <= survivors.len(),
    decreases survivors.len(),
{
    if survivors.len() > 0 {
        readable_len(cands, survivors.drop_last(), prefixes, fulls);
    }
}

proof fn wasted_agrees(h: Seq<HashedFile>, g: Seq<DupeGroup>, ranked: Seq<(u64, u32)>)
    requires
        g.len() == ranked.len(),
        forall|i: int| 0 <= i < g.len() ==> (#[trigger] g[i]).shows(h, ranked[i].1 as int),
    ensures
        dupes::wasted_sum(g) == wasted_over(h, ranked),
    decreases g.len(),
{
    if g.len() > 0 {
        let g0 = g.drop_last();
        let r0 = ranked.drop_last();
        assert forall|i: int| 0 <= i < g0.len() implies (#[trigger] g0[i]).shows(
            h,
            r0[i].1 as int,
        ) by {
            assert(g0[i] == g[i]);
        }
        wasted_agrees(h, g0, r0);
        assert(g[g.len() - 1].shows(h, ranked[g.len() - 1].1 as int));
    }
}

proof fn candidates_fit(t: Tree)
    requires
        t.wf(),
    ensures
        t.preorder(t.root as int).filter(dupes::has_content(t)).len() <= u32::MAX,
{
    let ids = t.preorder(t.root as int);
    t.walk_is_the_subtree(t.root);
    assert forall|k: int| 0 <= k < ids.len() implies (#[trigger] ids[k]) < t.size() by {
        assert(ids.contains(ids[k]));
        t.under_is_later(ids[k] as int, t.root as int);
    }
    seqs::distinct_fit(ids, t.size());
    ids.filter_lemma(dupes::has_content(t));
}

impl DupeScan {
    /// Begins a search: [`DupeScan::targets`] are the files to read a prefix of.
    pub fn begin(tree: &Tree) -> (r: DupeScan)
        requires
            tree.wf(),
        ensures
            r.wf(),
            r.generation == tree.generation,
            dupes::candidates_of(
                r.candidates@,
                *tree,
                tree.preorder(tree.root as int).filter(dupes::has_content(*tree)),
            ),
            r.survivors@.len() == 0,
    {
        let candidates = dupes::collect_candidates(tree);
        proof {
            candidates_fit(*tree);
        }
        let mut sizes: Vec<u64> = Vec::new();
        let mut prefixes: Vec<Option<[u8; 32]>> = Vec::new();
        let mut i: usize = 0;
        while i < candidates.len()
            invariant
                i <= candidates.len(),
                sizes@ == sizes_of(candidates@.take(i as int)),
                prefixes@.len() == i,
                forall|k: int| 0 <= k < i ==> (#[trigger] prefixes@[k]) is None,
            decreases candidates.len() - i,
        {
            sizes.push(candidates[i].size);
            prefixes.push(None);
            assert(sizes@ =~= sizes_of(candidates@.take(i + 1)));
            i += 1;
        }
        assert(candidates@.take(i as int) =~= candidates@);
        let targets = dupes::prefix_targets(&sizes);
        proof {
            no_twins(sizes@, prefixes@, sizes@.len());
        }
        DupeScan {
            generation: tree.generation,
            candidates,
            sizes,
            targets,
            prefixes,
            survivors: Vec::new(),
        }
    }

    /// Takes the prefix digests of the targets, in their order; an unreadable
    /// file has none. [`DupeScan::survivors`] are then the files to read whole,
    /// where the prefix is not the whole.
    pub fn screen(&mut self, digests: &Vec<Option<[u8; 32]>>)
        requires
            old(self).wf(),
            digests@.len() == old(self).targets@.len(),
        ensures
            final(self).wf(),
            final(self).generation == old(self).generation,
            final(self).candidates == old(self).candidates,
            final(self).targets == old(self).targets,
            final(self).prefixes@ == spread(
                old(self).targets@,
                digests@,
                old(self).candidates@.len(),
            ),
    {
        let ghost n = self.candidates@.len();
        let ghost targets = self.targets@;
        proof {
            mates_bound(self.sizes@, self.sizes@.len());
        }
        let mut prefixes: Vec<Option<[u8; 32]>> = Vec::new();
        let mut slot: usize = 0;
        let mut i: usize = 0;
        while i < self.candidates.len()
            invariant
                i <= self.candidates@.len(),
                self.candidates@.len() == n,
                n <= u32::MAX,
                self.sizes@.len() == n,
                self.targets@ == targets,
                targets == dupes::size_mates(self.sizes@, n),
                digests@.len() == targets.len(),
                targets.no_duplicates(),
                slot <= targets.len(),
                ascending(targets),
                forall|k: int| 0 <= k < slot ==> (#[trigger] targets[k]) < i,
                forall|k: int| slot <= k < targets.len() ==> (#[trigger] targets[k]) >= i,
                prefixes@ == spread(targets, digests@, n).take(i as int),
            decreases self.candidates@.len() - i,
        {
            let ghost all = spread(targets, digests@, n);
            if slot < self.targets.len() && self.targets[slot] == i as u32 {
                prefixes.push(digests[slot]);
                assert(targets[slot as int] == i as u32);
                assert(targets.index_of(i as u32) == slot);
                assert(all[i as int] == digests@[slot as int]);
                slot += 1;
            } else {
                assert(!targets.contains(i as u32)) by {
                    if targets.contains(i as u32) {
                        let k = targets.index_of(i as u32);
                        assert(targets[k] == i as u32);
                        if slot < targets.len() && k > slot {
                            assert(targets[slot as int] < targets[k]);
                        }
                    }
                }
                prefixes.push(None);
            }
            assert(prefixes@ =~= all.take(i + 1));
            i += 1;
        }
        assert(prefixes@ =~= spread(targets, digests@, n));
        let survivors = dupes::prefix_survivors(&self.sizes, &prefixes);
        self.prefixes = prefixes;
        self.survivors = survivors;
    }

    /// Takes the full digests and the identities of the survivors, in their
    /// order, and reports the duplicates.
    pub fn finish(
        &self,
        fulls: &Vec<Option<[u8; 32]>>,
        known: &Vec<Option<(u64, u64)>>,
    ) -> (r: DupesResult)
        requires
            self.wf(),
            fulls@.len() == self.survivors@.len(),
            known@.len() == self.survivors@.len(),
        ensures
            r.generation == self.generation,
            r.files == self.candidates@.len(),
            exists|h: Seq<HashedFile>|
                #[trigger] self.hashed(h, fulls@, known@) && reports(r, h),
            r.groups@.len() <= 200,
            forall|i: int|
                #![trigger r.groups@[i]]
                0 <= i < r.groups@.len() ==> {
                    let g = r.groups@[i];
                    &&& g.id == i
                    &&& g.count == g.paths@.len()
                    &&& g.count >= 2
                    &&& g.size * (g.count - 1) <= u64::MAX ==> g.wasted == g.size * (g.count - 1)
                    &&& g.size * (g.count - 1) > u64::MAX ==> g.wasted == u64::MAX
                },
            forall|i: int, j: int|
                0 <= i < j < r.groups@.len() ==> (#[trigger] r.groups@[i]).wasted >= (
                #[trigger] r.groups@[j]).wasted,
    {
        proof {
            twins_bound(self.sizes@, self.prefixes@, self.sizes@.len());
            readable_len(self.candidates@, self.survivors@, self.prefixes@, fulls@);
        }
        let h = dupes::hashed_files(
            &self.candidates,
            &self.survivors,
            &self.prefixes,
            fulls,
            known,
        );
        let groups = dupes::rank(&h);
        let r = dupes::present(self.generation, self.candidates.len() as u64, &groups);
        proof {
            let ranked = dupes::ranked_groups(h@);
            wasted_agrees(h@, groups@, ranked);
            assert forall|i: int| 0 <= i < r.groups@.len() implies #[trigger] shown_at(
                r,
                h@,
                i,
            ) by {
                assert(r.groups@[i].shows(groups@[i], i));
                assert(groups@[i].shows(h@, ranked[i].1 as int));
                let c = dupes::copies(h@, ranked[i].1 as int, h@.len());
                assert forall|j: int| 0 <= j < c.len() implies (
                #[trigger] r.groups@[i].paths@[j])@ == h@[c[j]].path@ by {
                    assert(groups@[i].files@[j]@ == h@[c[j]].path@);
                }
            }
            assert(self.hashed(h@, fulls@, known@));
            assert(reports(r, h@));
            dupes::ranking_holds(h@);
            assert forall|i: int| #![trigger r.groups@[i]] 0 <= i < r.groups@.len() implies {
                let g = r.groups@[i];
                &&& g.id == i
                &&& g.count == g.paths@.len()
                &&& g.count >= 2
                &&& g.size * (g.count - 1) <= u64::MAX ==> g.wasted == g.size * (g.count - 1)
                &&& g.size * (g.count - 1) > u64::MAX ==> g.wasted == u64::MAX
            } by {
                assert(shown_at(r, h@, i));
                assert(dupes::is_group(h@, ranked[i].1 as int));
            }
            assert forall|i: int, j: int| 0 <= i < j < r.groups@.len() implies (
            #[trigger] r.groups@[i]).wasted >= (#[trigger] r.groups@[j]).wasted by {
                assert(shown_at(r, h@, i));
                assert(shown_at(r, h@, j));
                assert(dupes::wasted_by(h@, ranked[i].1 as int) >= dupes::wasted_by(
                    h@,
                    ranked[j].1 as int,
                ));
            }
        }
        r
    }
}

/// A digest goes to the candidate that its target names, and the other
/// candidates have none.
pub proof fn a_digest_goes_to_its_target(
    targets: Seq<u32>,
    digests: Seq<Option<[u8; 32]>>,
    n: nat,
    i: int,
)
    requires
        n <= u32::MAX,
        digests.len() == targets.len(),
        forall|a: int, b: int| 0 <= a < b < targets.len() ==> targets[a] < targets[b],
        forall|k: int| 0 <= k < targets.len() ==> (#[trigger] targets[k]) < n,
        0 <= i < n,
    ensures
        spread(targets, digests, n).len() == n,
        (forall|k: int| 0 <= k < targets.len() ==> #[trigger] targets[k] != i) ==> spread(
            targets,
            digests,
            n,
        )[i] is None,
        forall|k: int|
            0 <= k < targets.len() && #[trigger] targets[k] == i ==> spread(targets, digests, n)[i]
                == digests[k],
{
    if targets.contains(i as u32) {
        let q = targets.index_of(i as u32);
        assert(targets[q] == i);
        assert forall|k: int| 0 <= k < targets.len() && #[trigger] targets[k] == i implies k
            == q by {
            if k < q {
                assert(targets[k] < targets[q]);
            }
            if q < k {
                assert(targets[q] < targets[k]);
            }
        }
    }
}

} // verus!
