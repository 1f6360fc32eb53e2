//! Rolling sizes and counts up from files to the folders above them.
use crate::order;
use crate::seqs;
use crate::tree::{DirExtra, Node, Tree};
use vstd::prelude::*;

verus! {

/// What is added up over a folder's contents.
pub ghost enum Measure {
    Logical,
    OnDisk,
    Files,
    Folders,
    /// Bytes on disk in the category with this index.
    Category(int),
}

/// The value that fits in 64 bits, or the largest one that does.
pub open spec fn capped(n: int) -> int {
    if n <= u64::MAX {
        n
    } else {
        u64::MAX as int
    }
}

impl Tree {
    /// The totals of a folder.
    pub open spec fn extra(&self, id: int) -> DirExtra {
        self.dir_extras@[self.at(id).dir_index as int]
    }

    /// What one child adds to its folder; a removed one adds nothing.
    pub open spec fn adds(&self, c: int, m: Measure) -> int {
        let n = self.at(c);
        if n.removed {
            0
        } else {
            match m {
                Measure::Logical => n.logical as int,
                Measure::OnDisk => n.on_disk as int,
                Measure::Files => if n.dir {
                    self.extra(c).file_count as int
                } else {
                    1
                },
                Measure::Folders => if n.dir {
                    self.extra(c).folder_count + 1
                } else {
                    0
                },
                Measure::Category(k) => if n.dir {
                    self.extra(c).type_sizes@[k] as int
                } else if n.kind.index() == k {
                    n.on_disk as int
                } else {
                    0
                },
            }
        }
    }

    /// The sum over a list of children.
    pub open spec fn total(&self, list: Seq<u32>, m: Measure) -> int
        decreases list.len(),
    {
        if list.len() == 0 {
            0
        } else {
            self.total(list.drop_last(), m) + self.adds(list.last() as int, m)
        }
    }

    /// The latest modification among children and what lies below them; 0 where
    /// none is known.
    pub open spec fn newest(&self, list: Seq<u32>) -> int
        decreases list.len(),
    {
        if list.len() == 0 {
            0
        } else {
            let c = list.last() as int;
            let own = self.at(c).modified as int;
            let rest = self.newest(list.drop_last());
            let m = if own > rest {
                own
            } else {
                rest
            };
            if self.at(c).removed {
                rest
            } else if self.at(c).dir && self.extra(c).max_descendant_modified > m {
                self.extra(c).max_descendant_modified as int
            } else {
                m
            }
        }
    }

    /// Children with their sizes.
    pub open spec fn sized(&self, list: Seq<u32>) -> Seq<(u64, u32)> {
        list.map_values(|c: u32| (self.at(c as int).on_disk, c))
    }

    /// Sizes and counts of a folder are those of its contents, and its children
    /// stand largest first.
    pub open spec fn rolled(&self, id: int) -> bool {
        let k = self.kids_of(id);
        let e = self.extra(id);
        &&& order::ranked(self.sized(k))
        &&& self.at(id).logical == capped(self.total(k, Measure::Logical))
        &&& self.at(id).on_disk == capped(self.total(k, Measure::OnDisk))
        &&& e.file_count == capped(self.total(k, Measure::Files))
        &&& e.folder_count == capped(self.total(k, Measure::Folders))
        &&& e.max_descendant_modified == self.newest(k)
        &&& forall|j: int|
            0 <= j < 9 ==> #[trigger] e.type_sizes@[j] == capped(
                self.total(k, Measure::Category(j)),
            )
    }

    /// Every folder is rolled up.
    pub open spec fn finalized(&self) -> bool {
        forall|id: int| self.has(id) && (#[trigger] self.at(id)).dir ==> self.rolled(id)
    }
}

/// The sums over one folder's children.
pub struct Totals {
    pub logical: u64,
    pub on_disk: u64,
    pub extra: DirExtra,
}

impl Totals {
    /// The sums over `list` in `t`.
    pub open spec fn of(&self, t: &Tree, list: Seq<u32>) -> bool {
        &&& self.logical == capped(t.total(list, Measure::Logical))
        &&& self.on_disk == capped(t.total(list, Measure::OnDisk))
        &&& self.extra.file_count == capped(t.total(list, Measure::Files))
        &&& self.extra.folder_count == capped(t.total(list, Measure::Folders))
        &&& self.extra.max_descendant_modified == t.newest(list)
        &&& forall|j: int|
            0 <= j < 9 ==> #[trigger] self.extra.type_sizes@[j] == capped(
                t.total(list, Measure::Category(j)),
            )
    }
}

impl Tree {
    /// No sum is negative.
    pub proof fn total_is_nat(&self, list: Seq<u32>, m: Measure)
        requires
            m matches Measure::Category(j) ==> 0 <= j < 9,
        ensures
            self.total(list, m) >= 0,
        decreases list.len(),
    {
        if list.len() > 0 {
            self.total_is_nat(list.drop_last(), m);
        }
    }

    /// Adds up the children of a folder.
    fn totals(&self, list: &Vec<u32>) -> (r: Totals)
        requires
            self.wf(),
            forall|j: int| 0 <= j < list@.len() ==> self.has(#[trigger] list@[j] as int),
        ensures
            r.of(self, list@),
    {
        let mut t = Totals { logical: 0, on_disk: 0, extra: crate::builder::empty_extra() };
        let mut i: usize = 0;
        while i < list.len()
            invariant
                i <= list.len(),
                self.wf(),
                forall|j: int| 0 <= j < list@.len() ==> self.has(#[trigger] list@[j] as int),
                t.of(self, list@.take(i as int)),
            decreases list.len() - i,
        {
            let c: u32 = list[i];
            let ghost seen = list@.take(i as int);
            let ghost more = list@.take(i + 1);
            proof {
                assert(more.drop_last() =~= seen);
                assert(more.last() == c);
                self.total_is_nat(seen, Measure::Logical);
                self.total_is_nat(seen, Measure::OnDisk);
                self.total_is_nat(seen, Measure::Files);
                self.total_is_nat(seen, Measure::Folders);
            }
            assert(self.has(list@[i as int] as int));
            let n: Node = self.arena[c as usize];
            if n.removed {
                assert forall|j: int| 0 <= j < 9 implies #[trigger] t.extra.type_sizes@[j]
                    == capped(self.total(more, Measure::Category(j))) by {
                    assert(self.total(more, Measure::Category(j)) == self.total(
                        seen,
                        Measure::Category(j),
                    ));
                }
            } else {
                t.logical = t.logical.saturating_add(n.logical);
                t.on_disk = t.on_disk.saturating_add(n.on_disk);
                if n.modified > t.extra.max_descendant_modified {
                    t.extra.max_descendant_modified = n.modified;
                }
                let ghost sizes = t.extra.type_sizes@;
                if n.dir {
                    assert(self.at(c as int).dir);
                    let e: DirExtra = self.dir_extras[n.dir_index as usize];
                    assert(e == self.extra(c as int));
                    t.extra.file_count = t.extra.file_count.saturating_add(e.file_count);
                    t.extra.folder_count = t.extra.folder_count.saturating_add(e.folder_count)
                        .saturating_add(1);
                    if e.max_descendant_modified > t.extra.max_descendant_modified {
                        t.extra.max_descendant_modified = e.max_descendant_modified;
                    }
                    let mut k: usize = 0;
                    while k < 9
                        invariant
                            k <= 9,
                            e == self.extra(c as int),
                            self.at(c as int).dir,
                            !self.at(c as int).removed,
                            more.len() > 0,
                            more.drop_last() == seen,
                            more.last() == c,
                            sizes.len() == 9,
                            forall|j: int|
                                0 <= j < 9 ==> #[trigger] sizes[j] == capped(
                                    self.total(seen, Measure::Category(j)),
                                ),
                            forall|j: int|
                                k <= j < 9 ==> #[trigger] t.extra.type_sizes@[j] == sizes[j],
                            forall|j: int|
                                0 <= j < k ==> #[trigger] t.extra.type_sizes@[j] == capped(
                                    self.total(more, Measure::Category(j)),
                                ),
                            t.logical == capped(self.total(more, Measure::Logical)),
                            t.on_disk == capped(self.total(more, Measure::OnDisk)),
                            t.extra.file_count == capped(self.total(more, Measure::Files)),
                            t.extra.folder_count == capped(self.total(more, Measure::Folders)),
                            t.extra.max_descendant_modified == self.newest(more),
                        decreases 9 - k,
                    {
                        proof {
                            self.total_is_nat(seen, Measure::Category(k as int));
                            assert(sizes[k as int] == t.extra.type_sizes@[k as int]);
                            assert(self.total(more, Measure::Category(k as int)) == self.total(
                                seen,
                                Measure::Category(k as int),
                            ) + e.type_sizes@[k as int]);
                        }
                        let v: u64 = t.extra.type_sizes[k].saturating_add(e.type_sizes[k]);
                        t.extra.type_sizes[k] = v;
                        k += 1;
                    }
                } else {
                    t.extra.file_count = t.extra.file_count.saturating_add(1);
                    let k: usize = n.kind.as_bits() as usize;
                    let v: u64 = t.extra.type_sizes[k].saturating_add(n.on_disk);
                    t.extra.type_sizes[k] = v;
                    proof {
                        assert forall|j: int| 0 <= j < 9 implies #[trigger] t.extra.type_sizes@[j]
                            == capped(self.total(more, Measure::Category(j))) by {
                            self.total_is_nat(seen, Measure::Category(j));
                            assert(sizes[j] == capped(self.total(seen, Measure::Category(j))));
                        }
                    }
                }
            }
            i += 1;
        }
        assert(list@.take(i as int) =~= list@);
        t
    }
}

/// The tree `b` differs from `a` at most in the sizes, the totals and the child
/// order of folder `id`.
pub open spec fn reworked(a: Tree, b: Tree, id: int) -> bool {
    &&& b.size() == a.size()
    &&& b.names == a.names
    &&& b.generation == a.generation && b.root == a.root && b.roots == a.roots && b.palette
        == a.palette
    &&& b.kids@.len() == a.kids@.len()
    &&& b.dir_extras@.len() == a.dir_extras@.len()
    &&& b.at(id) == (Node { logical: b.at(id).logical, on_disk: b.at(id).on_disk, ..a.at(id) })
    &&& b.kids_of(id).to_multiset() == a.kids_of(id).to_multiset()
    &&& forall|x: int|
        a.has(x) && x != id ==> #[trigger] b.at(x) == a.at(x) && b.kids_of(x) == a.kids_of(x)
    &&& forall|k: int|
        0 <= k < a.dir_extras@.len() && k != a.at(id).dir_index ==> #[trigger] b.dir_extras@[k]
            == a.dir_extras@[k]
}

/// The tree `b` holds the same nodes as `a` in the same places; only the sizes
/// and totals of folders and the order of children may differ.
pub open spec fn same_nodes(a: Tree, b: Tree) -> bool {
    &&& b.size() == a.size()
    &&& b.names == a.names
    &&& b.generation == a.generation && b.root == a.root && b.roots == a.roots && b.palette
        == a.palette
    &&& b.dir_extras@.len() == a.dir_extras@.len()
    &&& forall|x: int|
        a.has(x) ==> {
            &&& (#[trigger] b.at(x)) == (Node {
                logical: b.at(x).logical,
                on_disk: b.at(x).on_disk,
                ..a.at(x)
            })
            &&& !a.at(x).dir ==> b.at(x) == a.at(x) && b.kids_of(x) == a.kids_of(x)
            &&& b.kids_of(x).to_multiset() == a.kids_of(x).to_multiset()
        }
}

proof fn total_frame(a: Tree, b: Tree, list: Seq<u32>, m: Measure)
    requires
        forall|j: int|
            0 <= j < list.len() ==> a.adds(#[trigger] list[j] as int, m) == b.adds(
                list[j] as int,
                m,
            ),
    ensures
        a.total(list, m) == b.total(list, m),
    decreases list.len(),
{
    if list.len() > 0 {
        let rest = list.drop_last();
        assert forall|j: int| 0 <= j < rest.len() implies a.adds(#[trigger] rest[j] as int, m)
            == b.adds(rest[j] as int, m) by {
            assert(rest[j] == list[j]);
        }
        total_frame(a, b, rest, m);
        assert(list[list.len() - 1] == list.last());
    }
}

proof fn newest_frame(a: Tree, b: Tree, list: Seq<u32>)
    requires
        forall|j: int|
            0 <= j < list.len() ==> a.at(#[trigger] list[j] as int) == b.at(list[j] as int) && (a.at(
                list[j] as int,
            ).dir ==> a.extra(list[j] as int) == b.extra(list[j] as int)),
    ensures
        a.newest(list) == b.newest(list),
    decreases list.len(),
{
    if list.len() > 0 {
        let rest = list.drop_last();
        assert forall|j: int| 0 <= j < rest.len() implies a.at(#[trigger] rest[j] as int) == b.at(
            rest[j] as int,
        ) && (a.at(rest[j] as int).dir ==> a.extra(rest[j] as int) == b.extra(rest[j] as int)) by {
            assert(rest[j] == list[j]);
        }
        newest_frame(a, b, rest);
        assert(list[list.len() - 1] == list.last());
    }
}

/// Reworking one folder leaves the sums over nodes other than it unchanged.
proof fn sums_frame(a: Tree, b: Tree, id: int, list: Seq<u32>)
    requires
        a.wf(),
        a.has(id),
        a.at(id).dir,
        reworked(a, b, id),
        forall|j: int| 0 <= j < list.len() ==> a.has(#[trigger] list[j] as int) && list[j] != id,
    ensures
        forall|m: Measure| a.total(list, m) == #[trigger] b.total(list, m),
        a.newest(list) == b.newest(list),
        a.sized(list) == b.sized(list),
{
    assert forall|j: int| 0 <= j < list.len() implies a.at(#[trigger] list[j] as int) == b.at(
        list[j] as int,
    ) && (a.at(list[j] as int).dir ==> a.extra(list[j] as int) == b.extra(list[j] as int)) by {
        let c = list[j] as int;
        assert(b.at(c) == a.at(c));
        if a.at(c).dir {
            assert(a.at(c).dir_index != a.at(id).dir_index);
        }
    }
    assert forall|m: Measure| a.total(list, m) == #[trigger] b.total(list, m) by {
        assert forall|j: int| 0 <= j < list.len() implies a.adds(#[trigger] list[j] as int, m)
            == b.adds(list[j] as int, m) by {}
        total_frame(a, b, list, m);
    }
    newest_frame(a, b, list);
    assert(a.sized(list) =~= b.sized(list));
}

/// Reworking one folder keeps the invariant.
proof fn reworked_wf(a: Tree, b: Tree, id: int)
    requires
        a.wf(),
        a.has(id),
        a.at(id).dir,
        reworked(a, b, id),
    ensures
        b.wf(),
{
    let ka = a.kids_of(id);
    let kb = b.kids_of(id);
    ka.to_multiset_ensures();
    kb.to_multiset_ensures();
    assert forall|c: u32| ka.contains(c) <==> kb.contains(c) by {
        assert(ka.contains(c) <==> ka.to_multiset().count(c) > 0);
        assert(kb.contains(c) <==> kb.to_multiset().count(c) > 0);
    }
    assert(a.kids_wf(id));
    ka.lemma_multiset_has_no_duplicates();
    kb.lemma_multiset_has_no_duplicates_conv();
    assert forall|x: int| a.has(x) implies b.at(x).parent == a.at(x).parent && b.at(x).dir == a.at(
        x,
    ).dir && b.at(x).dir_index == a.at(x).dir_index by {}
    assert forall|x: int| b.has(x) implies #[trigger] b.kids_wf(x) by {
        assert(a.kids_wf(x));
        if x == id {
            assert forall|j: int| 0 <= j < kb.len() implies {
                let c = #[trigger] kb[j];
                x < c < b.size() && b.at(c as int).parent == x
            } by {
                assert(kb.contains(kb[j]));
                let i = ka.index_of(kb[j]);
                assert(ka[i] == kb[j]);
            }
        } else {
            assert(b.at(x) == a.at(x));
            assert forall|j: int| 0 <= j < b.kids_of(x).len() implies {
                let c = #[trigger] b.kids_of(x)[j];
                x < c < b.size() && b.at(c as int).parent == x
            } by {
                let c = a.kids_of(x)[j];
            }
        }
    }
    assert forall|x: int| b.has(x) implies #[trigger] b.parent_wf(x) by {
        assert(a.parent_wf(x));
        if x != 0 {
            let q = a.at(x).parent as int;
            if q != id {
                assert(b.at(q) == a.at(q));
            }
        }
    }
    assert forall|x: int| b.has(x) && (#[trigger] b.at(x)).dir implies b.at(x).dir_index
        < b.dir_extras@.len() by {
        assert(a.at(x).dir);
    }
    assert forall|x: int, y: int|
        b.has(x) && b.has(y) && x != y && (#[trigger] b.at(x)).dir && (#[trigger] b.at(
            y,
        )).dir implies b.at(x).dir_index != b.at(y).dir_index by {
        assert(a.at(x).dir && a.at(y).dir);
    }
}

/// A list and the ids of its ranking hold the same ids.
proof fn ids_of_ranking(t: Tree, list: Seq<u32>, pairs: Seq<(u64, u32)>, ids: Seq<u32>)
    requires
        pairs.to_multiset() == t.sized(list).to_multiset(),
        ids == pairs.map_values(|p: (u64, u32)| p.1),
    ensures
        ids.to_multiset() == list.to_multiset(),
        t.sized(ids) == pairs,
{
    let f = |p: (u64, u32)| p.1;
    let sized = t.sized(list);
    order::rank_keeps(pairs, sized);
    assert forall|i: int| 0 <= i < pairs.len() implies pairs[i].0 == t.at(
        #[trigger] pairs[i].1 as int,
    ).on_disk by {
        assert(pairs.contains(pairs[i]));
        assert(sized.contains(pairs[i]));
        let j = sized.index_of(pairs[i]);
        assert(sized[j] == (t.at(list[j] as int).on_disk, list[j]));
    }
    assert(t.sized(ids) =~= pairs);
    assert(sized.map_values(f) =~= list);
    map_multiset(pairs, sized, f);
}

/// Mapping two lists with the same entries gives lists with the same entries.
proof fn map_multiset(a: Seq<(u64, u32)>, b: Seq<(u64, u32)>, f: spec_fn((u64, u32)) -> u32)
    requires
        a.to_multiset() == b.to_multiset(),
    ensures
        a.map_values(f).to_multiset() == b.map_values(f).to_multiset(),
    decreases a.len(),
{
    a.to_multiset_ensures();
    b.to_multiset_ensures();
    order::rank_keeps(a, b);
    if a.len() == 0 {
        assert(a.map_values(f) =~= b.map_values(f));
    } else {
        let x = a.last();
        assert(b.contains(x)) by {
            assert(a[a.len() - 1] == x);
            assert(a.contains(x));
        }
        let j = b.index_of(x);
        let a1 = a.drop_last();
        let b1 = b.remove(j);
        a1.to_multiset_ensures();
        assert(a =~= a1.push(x));
        assert(a1.to_multiset() =~= b1.to_multiset()) by {
            assert(a.to_multiset() =~= a1.to_multiset().insert(x));
            assert(b1.to_multiset() =~= b.to_multiset().remove(x));
        }
        map_multiset(a1, b1, f);
        a1.map_values(f).to_multiset_ensures();
        b.map_values(f).to_multiset_ensures();
        assert(a.map_values(f) =~= a1.map_values(f).push(f(x)));
        assert(b.map_values(f).remove(j) =~= b1.map_values(f));
        assert(b.map_values(f)[j] == f(x));
        assert(a.map_values(f).to_multiset() =~= b.map_values(f).to_multiset());
    }
}

impl Tree {
    /// Rolls up one folder whose subfolders are rolled up.
    fn roll_one(&mut self, id: u32)
        requires
            old(self).wf(),
            old(self).has(id as int),
            old(self).at(id as int).dir,
            forall|x: int|
                id < x < old(self).size() && (#[trigger] old(self).at(x)).dir ==> old(self).rolled(x),
        ensures
            final(self).wf(),
            reworked(*old(self), *final(self), id as int),
            forall|x: int|
                id <= x < final(self).size() && (#[trigger] final(self).at(x)).dir
                    ==> final(self).rolled(x),
    {
        let ghost a = *self;
        let list = &self.kids[id as usize];
        assert(list@ == a.kids_of(id as int));
        assert(a.kids_wf(id as int));
        let mut pairs: Vec<(u64, u32)> = Vec::new();
        let mut i: usize = 0;
        while i < list.len()
            invariant
                i <= list.len(),
                *self == a,
                a.wf(),
                a.has(id as int),
                a.kids_wf(id as int),
                list@ == a.kids_of(id as int),
                pairs@ == a.sized(list@.take(i as int)),
            decreases list.len() - i,
        {
            let c: u32 = list[i];
            assert(a.kids_of(id as int)[i as int] == c);
            pairs.push((self.arena[c as usize].on_disk, c));
            assert(pairs@ =~= a.sized(list@.take(i + 1)));
            i += 1;
        }
        assert(list@.take(i as int) =~= list@);
        let ranking = order::rank(pairs.as_slice());
        let mut ids: Vec<u32> = Vec::new();
        let mut k: usize = 0;
        while k < ranking.len()
            invariant
                k <= ranking.len(),
                ids@ == ranking@.take(k as int).map_values(|p: (u64, u32)| p.1),
            decreases ranking.len() - k,
        {
            ids.push(ranking[k].1);
            assert(ids@ =~= ranking@.take(k + 1).map_values(|p: (u64, u32)| p.1));
            k += 1;
        }
        proof {
            assert(ranking@.take(k as int) =~= ranking@);
            ids_of_ranking(a, a.kids_of(id as int), ranking@, ids@);
            let old_ids = a.kids_of(id as int);
            old_ids.to_multiset_ensures();
            ids@.to_multiset_ensures();
            assert forall|j: int| 0 <= j < ids@.len() implies a.has(#[trigger] ids@[j] as int)
                && ids@[j] != id by {
                assert(ids@.contains(ids@[j]));
                assert(ids@.to_multiset().count(ids@[j]) > 0);
                assert(old_ids.contains(ids@[j]));
                let q = old_ids.index_of(ids@[j]);
                assert(old_ids[q] == ids@[j]);
            }
        }
        let ghost new_ids = ids@;
        let sums = self.totals(&ids);
        let mut n: Node = self.arena[id as usize];
        n.logical = sums.logical;
        n.on_disk = sums.on_disk;
        let di: u32 = n.dir_index;
        self.arena.set(id as usize, n);
        self.kids.set(id as usize, ids);
        self.dir_extras.set(di as usize, sums.extra);
        proof {
            let b = *self;
            assert(b.kids_of(id as int) == new_ids);
            assert(reworked(a, b, id as int));
            reworked_wf(a, b, id as int);
            sums_frame(a, b, id as int, new_ids);
            assert(b.rolled(id as int)) by {
                assert(b.sized(new_ids) == ranking@);
            }
            assert forall|x: int| id <= x < b.size() && (#[trigger] b.at(x)).dir implies b.rolled(
                x,
            ) by {
                if x != id {
                    assert(b.at(x) == a.at(x));
                    assert(a.rolled(x));
                    let kx = a.kids_of(x);
                    assert(a.kids_wf(x));
                    assert forall|j: int| 0 <= j < kx.len() implies a.has(#[trigger] kx[j] as int)
                        && kx[j] != id by {}
                    sums_frame(a, b, id as int, kx);
                    assert(a.at(x).dir_index != a.at(id as int).dir_index);
                    assert(b.extra(x) == a.extra(x));
                }
            }
        }
    }

    /// Rolls up every folder: sizes and counts from the contents, children
    /// largest first (equal sizes in id order).
    pub fn finalize(&mut self)
        requires
            old(self).wf(),
        ensures
            final(self).wf(),
            final(self).finalized(),
            same_nodes(*old(self), *final(self)),
    {
        let ghost a = *self;
        let mut id: u32 = self.arena.len() as u32;
        while id > 0
            invariant
                self.wf(),
                a.wf(),
                id <= self.size(),
                same_nodes(a, *self),
                forall|x: int|
                    id <= x < self.size() && (#[trigger] self.at(x)).dir ==> self.rolled(x),
            decreases id,
        {
            id -= 1;
            if self.arena[id as usize].dir {
                let ghost m = *self;
                self.roll_one(id);
                proof {
                    assert forall|x: int| a.has(x) implies {
                        &&& (#[trigger] self.at(x)) == (Node {
                            logical: self.at(x).logical,
                            on_disk: self.at(x).on_disk,
                            ..a.at(x)
                        })
                        &&& !a.at(x).dir ==> self.at(x) == a.at(x) && self.kids_of(x) == a.kids_of(
                            x,
                        )
                        &&& self.kids_of(x).to_multiset() == a.kids_of(x).to_multiset()
                    } by {
                        assert(m.at(x).dir == a.at(x).dir);
                    }
                }
            }
        }
    }
}

/// The nodes from a node down that pass a test, ranked by their bytes on disk,
/// are all of those nodes, each once and with its bytes.
pub proof fn ranked_below(t: Tree, node: u32, p: spec_fn(u32) -> bool)
    requires
        t.wf(),
    ensures
        ({
            let r = order::ranking(t.sized(t.preorder(node as int).filter(p)));
            &&& order::ranked(r)
            &&& r.no_duplicates()
            &&& forall|k: int|
                0 <= k < r.len() ==> {
                    let x = (#[trigger] r[k]).1;
                    &&& t.under(x as int, node as int)
                    &&& p(x)
                    &&& r[k].0 == t.at(x as int).on_disk
                }
            &&& forall|x: u32|
                t.under(x as int, node as int) && #[trigger] p(x) ==> r.contains(
                    (t.at(x as int).on_disk, x),
                )
        }),
{
    let walk = t.preorder(node as int);
    let found = walk.filter(p);
    let sized = t.sized(found);
    let r = order::ranking(sized);
    t.walk_is_the_subtree(node);
    seqs::filter_members(walk, p);
    seqs::filter_distinct(walk, p);
    order::ranking_is_ranked(sized);
    assert(sized.no_duplicates()) by {
        assert forall|i: int, j: int|
            0 <= i < sized.len() && 0 <= j < sized.len() && i != j implies sized[i] != sized[j] by {
            assert(sized[i].1 == found[i] && sized[j].1 == found[j]);
        }
    }
    assert forall|k: int| 0 <= k < r.len() implies {
        let x = (#[trigger] r[k]).1;
        &&& t.under(x as int, node as int)
        &&& p(x)
        &&& r[k].0 == t.at(x as int).on_disk
    } by {
        assert(r.contains(r[k]));
        let j = sized.index_of(r[k]);
        assert(sized[j] == r[k]);
        assert(found[j] == r[k].1);
        assert(found.contains(found[j]));
    }
    assert forall|x: u32| t.under(x as int, node as int) && #[trigger] p(x) implies r.contains(
        (t.at(x as int).on_disk, x),
    ) by {
        assert(walk.contains(x));
        assert(found.contains(x));
        let j = found.index_of(x);
        assert(sized[j] == (t.at(x as int).on_disk, x));
        assert(sized.contains(sized[j]));
    }
}

/// Rolling up keeps every node: its place, its name, its times and marks, and
/// everything of a file; only sizes of folders and the order of children change.
pub proof fn rolling_up_keeps_the_nodes(a: Tree, b: Tree, x: int)
    requires
        same_nodes(a, b),
        0 <= x < a.arena@.len(),
    ensures
        b.arena@.len() == a.arena@.len(),
        b.names@[x]@ == a.names@[x]@,
        b.arena@[x].parent == a.arena@[x].parent,
        b.arena@[x].dir == a.arena@[x].dir,
        b.arena@[x].kind == a.arena@[x].kind,
        b.arena@[x].removed == a.arena@[x].removed,
        b.arena@[x].cloud == a.arena@[x].cloud,
        b.arena@[x].protected == a.arena@[x].protected,
        b.arena@[x].modified == a.arena@[x].modified,
        !a.arena@[x].dir ==> b.arena@[x] == a.arena@[x],
        b.kids_of(x).len() == a.kids_of(x).len(),
{
    assert(b.at(x) == (Node { logical: b.at(x).logical, on_disk: b.at(x).on_disk, ..a.at(x) }));
    b.kids_of(x).to_multiset_ensures();
    a.kids_of(x).to_multiset_ensures();
}

} // verus!
