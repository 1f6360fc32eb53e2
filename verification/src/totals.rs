//! What the totals of a folder mean: they count every live file below it.
use crate::rollup;
use crate::rollup::Measure;
use crate::tree::{Node, Tree};
use vstd::prelude::*;

verus! {

/// What one file counts: its sizes, or one file.
pub open spec fn file_value(n: Node, m: Measure) -> int {
    match m {
        Measure::Logical => n.logical as int,
        Measure::OnDisk => n.on_disk as int,
        Measure::Files => 1,
        Measure::Folders => 0,
        Measure::Category(k) => if n.kind.index() == k {
            n.on_disk as int
        } else {
            0
        },
    }
}

impl Tree {
    /// What the live files below a node count together; a file counts for
    /// itself.
    pub open spec fn held(&self, id: int, m: Measure) -> int
        decreases self.size() - id, self.kids_of(id).len() + 1,
    {
        if !self.has(id) {
            0
        } else if !self.at(id).dir {
            file_value(self.at(id), m)
        } else {
            self.held_by(id, self.kids_of(id), m)
        }
    }

    /// What the live nodes of a list count together; `above` is their folder.
    pub open spec fn held_by(&self, above: int, list: Seq<u32>, m: Measure) -> int
        decreases self.size() - above, list.len(),
    {
        if list.len() == 0 {
            0
        } else {
            let c = list.last() as int;
            let rest = self.held_by(above, list.drop_last(), m);
            if above < c < self.size() && !self.at(c).removed {
                rest + self.held(c, m)
            } else {
                rest
            }
        }
    }
}

proof fn held_is_nat(t: Tree, id: int, m: Measure)
    ensures
        t.held(id, m) >= 0,
    decreases t.size() - id, t.kids_of(id).len() + 1,
{
    if t.has(id) && t.at(id).dir {
        held_by_is_nat(t, id, t.kids_of(id), m);
    }
}

proof fn held_by_is_nat(t: Tree, above: int, list: Seq<u32>, m: Measure)
    ensures
        t.held_by(above, list, m) >= 0,
    decreases t.size() - above, list.len(),
{
    if list.len() > 0 {
        held_by_is_nat(t, above, list.drop_last(), m);
        let c = list.last() as int;
        if above < c < t.size() {
            held_is_nat(t, c, m);
        }
    }
}

/// The measures that count files.
pub open spec fn counts_files(m: Measure) -> bool {
    match m {
        Measure::Folders => false,
        Measure::Category(k) => 0 <= k < 9,
        _ => true,
    }
}

/// A child adds to its folder what the live files below it count, up to the
/// largest number.
proof fn adds_what_it_holds(t: Tree, c: int, m: Measure)
    requires
        t.wf(),
        t.finalized(),
        t.has(c),
        !t.at(c).removed,
        counts_files(m),
    ensures
        t.adds(c, m) == rollup::capped(t.held(c, m)),
    decreases t.size() - c, t.kids_of(c).len() + 1,
{
    if t.at(c).dir {
        assert(t.rolled(c));
        assert(t.kids_wf(c));
        let list = t.kids_of(c);
        assert forall|j: int| 0 <= j < list.len() implies c < (#[trigger] list[j]) < t.size() by {
            let k = t.kids_of(c)[j];
        }
        sums_what_it_holds(t, c, list, m);
        match m {
            Measure::Category(k) => {
                assert(t.extra(c).type_sizes@[k] == rollup::capped(
                    t.total(t.kids_of(c), Measure::Category(k)),
                ));
            },
            _ => {},
        }
    }
}

proof fn sums_what_it_holds(t: Tree, above: int, list: Seq<u32>, m: Measure)
    requires
        t.wf(),
        t.finalized(),
        counts_files(m),
        0 <= above,
        forall|j: int| 0 <= j < list.len() ==> above < (#[trigger] list[j]) < t.size(),
    ensures
        rollup::capped(t.total(list, m)) == rollup::capped(t.held_by(above, list, m)),
        t.total(list, m) >= 0,
    decreases t.size() - above, list.len(),
{
    if list.len() > 0 {
        let rest = list.drop_last();
        let c = list.last() as int;
        assert(list[list.len() - 1] == list.last());
        assert forall|j: int| 0 <= j < rest.len() implies above < (#[trigger] rest[j])
            < t.size() by {
            assert(rest[j] == list[j]);
        }
        sums_what_it_holds(t, above, rest, m);
        held_by_is_nat(t, above, rest, m);
        held_is_nat(t, c, m);
        if !t.at(c).removed {
            adds_what_it_holds(t, c, m);
        }
    }
}

/// After the roll-up the sizes of a folder are the sums over every live file
/// below it, and its file count counts them; sums stop at the largest number.
pub proof fn every_live_file_is_counted(t: Tree, id: int)
    requires
        t.wf(),
        t.finalized(),
        t.has(id),
        t.at(id).dir,
    ensures
        t.at(id).logical == rollup::capped(t.held(id, Measure::Logical)),
        t.at(id).on_disk == rollup::capped(t.held(id, Measure::OnDisk)),
        t.extra(id).file_count == rollup::capped(t.held(id, Measure::Files)),
        forall|k: int|
            0 <= k < 9 ==> #[trigger] t.extra(id).type_sizes@[k] == rollup::capped(
                t.held(id, Measure::Category(k)),
            ),
{
    assert(t.rolled(id));
    assert(t.kids_wf(id));
    let list = t.kids_of(id);
    assert forall|j: int| 0 <= j < list.len() implies id < (#[trigger] list[j]) < t.size() by {
        let c = t.kids_of(id)[j];
    }
    sums_what_it_holds(t, id, list, Measure::Logical);
    sums_what_it_holds(t, id, list, Measure::OnDisk);
    sums_what_it_holds(t, id, list, Measure::Files);
    assert forall|k: int| 0 <= k < 9 implies #[trigger] t.extra(id).type_sizes@[k]
        == rollup::capped(t.held(id, Measure::Category(k))) by {
        sums_what_it_holds(t, id, list, Measure::Category(k));
    }
}

/// What the files of a list count together.
pub open spec fn file_sum(t: Tree, ids: Seq<u32>, m: Measure) -> int
    decreases ids.len(),
{
    if ids.len() == 0 {
        0
    } else {
        let n = t.at(ids.last() as int);
        file_sum(t, ids.drop_last(), m) + (if n.dir {
            0
        } else {
            file_value(n, m)
        })
    }
}

proof fn file_sum_adds(t: Tree, a: Seq<u32>, b: Seq<u32>, m: Measure)
    ensures
        file_sum(t, a + b, m) == file_sum(t, a, m) + file_sum(t, b, m),
    decreases b.len(),
{
    if b.len() == 0 {
        assert(a + b =~= a);
    } else {
        assert((a + b).drop_last() =~= a + b.drop_last());
        assert((a + b).last() == b.last());
        file_sum_adds(t, a, b.drop_last(), m);
    }
}

proof fn held_by_adds(t: Tree, above: int, a: Seq<u32>, b: Seq<u32>, m: Measure)
    ensures
        t.held_by(above, a + b, m) == t.held_by(above, a, m) + t.held_by(above, b, m),
    decreases b.len(),
{
    if b.len() == 0 {
        assert(a + b =~= a);
    } else {
        assert((a + b).drop_last() =~= a + b.drop_last());
        assert((a + b).last() == b.last());
        held_by_adds(t, above, a, b.drop_last(), m);
    }
}

/// Nothing in the tree is removed, and only folders hold something.
pub open spec fn is_whole(t: Tree) -> bool {
    forall|x: int|
        t.has(x) ==> !(#[trigger] t.at(x)).removed && (!t.at(x).dir ==> t.kids_of(x).len() == 0)
}

/// In a tree from which nothing was removed, what a node holds is the sum over
/// all files of the walk from it.
pub proof fn a_walk_meets_every_file(t: Tree, id: int, m: Measure)
    requires
        t.wf(),
        is_whole(t),
        t.has(id),
    ensures
        t.held(id, m) == file_sum(t, t.preorder(id), m),
    decreases t.size() - id, t.kids_of(id).len() + 1,
{
    let own = seq![id as u32];
    assert(file_sum(t, own.drop_last(), m) == 0);
    assert(own.last() == id as u32);
    file_sum_adds(t, own, t.preorder_from(id, 0), m);
    assert(t.at(id) == t.at(id as u32 as int));
    if t.at(id).dir {
        a_walk_from_meets_every_file(t, id, 0, m);
        assert(t.kids_of(id).skip(0) =~= t.kids_of(id));
    } else {
        assert(t.kids_of(id).len() == 0);
        assert(t.preorder_from(id, 0) =~= Seq::empty());
    }
}

proof fn a_walk_from_meets_every_file(t: Tree, id: int, j: int, m: Measure)
    requires
        t.wf(),
        is_whole(t),
        t.has(id),
        0 <= j <= t.kids_of(id).len(),
    ensures
        t.held_by(id, t.kids_of(id).skip(j), m) == file_sum(t, t.preorder_from(id, j), m),
    decreases t.size() - id, t.kids_of(id).len() - j,
{
    let k = t.kids_of(id);
    if j < k.len() {
        assert(t.kids_wf(id));
        let c = k[j] as int;
        let one = seq![k[j]];
        assert(k.skip(j) =~= one + k.skip(j + 1));
        held_by_adds(t, id, one, k.skip(j + 1), m);
        assert(one.drop_last() =~= Seq::empty());
        assert(one.last() == k[j]);
        assert(t.held_by(id, one.drop_last(), m) == 0);
        assert(!t.at(c).removed);
        a_walk_meets_every_file(t, c, m);
        a_walk_from_meets_every_file(t, id, j + 1, m);
        file_sum_adds(t, t.preorder(c), t.preorder_from(id, j + 1), m);
    } else {
        assert(k.skip(j) =~= Seq::empty());
    }
}

/// The latest time below a folder is no earlier than that of any live child or of
/// anything that a live folder in it says, and is one of these or zero.
pub proof fn newest_is_the_latest_below(t: Tree, id: int, c: int)
    requires
        t.wf(),
        t.finalized(),
        t.has(id),
        t.at(id).dir,
        t.has(c),
        c != 0,
        t.at(c).parent == id,
        !t.at(c).removed,
    ensures
        t.extra(id).max_descendant_modified >= t.at(c).modified,
        t.at(c).dir ==> t.extra(id).max_descendant_modified >= t.extra(c).max_descendant_modified,
        t.extra(id).max_descendant_modified >= 0,
        t.extra(id).max_descendant_modified > 0 ==> exists|d: int|
            {
                &&& #[trigger] t.has(d)
                &&& t.at(d).parent == id
                &&& !t.at(d).removed
                &&& t.extra(id).max_descendant_modified == t.at(d).modified || (t.at(d).dir
                    && t.extra(id).max_descendant_modified == t.extra(d).max_descendant_modified)
            },
{
    assert(t.rolled(id));
    assert(t.parent_wf(c));
    assert(t.kids_wf(id));
    let k = t.kids_of(id);
    newest_holds(t, k);
    let j = k.index_of(c as u32);
    assert(k[j] == c as u32);
    if t.extra(id).max_descendant_modified > 0 {
        let i = choose|i: int|
            {
                &&& 0 <= i < k.len()
                &&& !t.at(#[trigger] k[i] as int).removed
                &&& t.newest(k) == t.at(k[i] as int).modified || (t.at(k[i] as int).dir && t.newest(
                    k,
                ) == t.extra(k[i] as int).max_descendant_modified)
            };
        let d = k[i];
        assert(t.has(d as int));
    }
}

proof fn newest_holds(t: Tree, list: Seq<u32>)
    ensures
        t.newest(list) >= 0,
        forall|i: int|
            0 <= i < list.len() && !t.at(#[trigger] list[i] as int).removed ==> t.newest(list)
                >= t.at(list[i] as int).modified && (t.at(list[i] as int).dir ==> t.newest(list)
                >= t.extra(list[i] as int).max_descendant_modified),
        t.newest(list) > 0 ==> exists|i: int|
            {
                &&& 0 <= i < list.len()
                &&& !t.at(#[trigger] list[i] as int).removed
                &&& t.newest(list) == t.at(list[i] as int).modified || (t.at(list[i] as int).dir
                    && t.newest(list) == t.extra(list[i] as int).max_descendant_modified)
            },
    decreases list.len(),
{
    if list.len() > 0 {
        let less = list.drop_last();
        newest_holds(t, less);
        let n = list.len() - 1;
        assert(list[n] == list.last());
        assert forall|i: int|
            0 <= i < list.len() && !t.at(#[trigger] list[i] as int).removed implies t.newest(list)
            >= t.at(list[i] as int).modified && (t.at(list[i] as int).dir ==> t.newest(list)
            >= t.extra(list[i] as int).max_descendant_modified) by {
            if i < n {
                assert(less[i] == list[i]);
            }
        }
        if t.newest(list) > 0 {
            if t.newest(list) == t.newest(less) {
                let i = choose|i: int|
                    {
                        &&& 0 <= i < less.len()
                        &&& !t.at(#[trigger] less[i] as int).removed
                        &&& t.newest(less) == t.at(less[i] as int).modified || (t.at(
                            less[i] as int,
                        ).dir && t.newest(less) == t.extra(less[i] as int).max_descendant_modified)
                    };
                assert(list[i] == less[i]);
            } else {
                assert(!t.at(list[n] as int).removed);
            }
        }
    }
}

/// How many nodes of a list are folders.
pub open spec fn folder_sum(t: Tree, ids: Seq<u32>) -> int
    decreases ids.len(),
{
    if ids.len() == 0 {
        0
    } else {
        folder_sum(t, ids.drop_last()) + (if t.at(ids.last() as int).dir {
            1int
        } else {
            0
        })
    }
}

proof fn folder_sum_adds(t: Tree, a: Seq<u32>, b: Seq<u32>)
    ensures
        folder_sum(t, a + b) == folder_sum(t, a) + folder_sum(t, b),
        folder_sum(t, b) >= 0,
    decreases b.len(),
{
    if b.len() == 0 {
        assert(a + b =~= a);
    } else {
        assert((a + b).drop_last() =~= a + b.drop_last());
        assert((a + b).last() == b.last());
        folder_sum_adds(t, a, b.drop_last());
    }
}

/// In a tree from which nothing was removed the folder count of a folder is the
/// number of folders in the walk from it, without itself; counts stop at the
/// largest number.
pub proof fn every_folder_is_counted(t: Tree, id: int)
    requires
        t.wf(),
        t.finalized(),
        is_whole(t),
        t.has(id),
        t.at(id).dir,
    ensures
        folder_sum(t, t.preorder(id)) >= 1,
        t.extra(id).folder_count == rollup::capped(folder_sum(t, t.preorder(id)) - 1),
    decreases t.size() - id, t.kids_of(id).len() + 1,
{
    assert(t.rolled(id));
    let own = seq![id as u32];
    assert(own.drop_last() =~= Seq::empty());
    assert(own.last() == id as u32);
    assert(t.at(id) == t.at(id as u32 as int));
    assert(folder_sum(t, own.drop_last()) == 0);
    assert(folder_sum(t, own) == 1);
    folder_sum_adds(t, own, t.preorder_from(id, 0));
    folders_from(t, id, 0);
    assert(t.kids_of(id).skip(0) =~= t.kids_of(id));
}

proof fn total_front(t: Tree, c: u32, rest: Seq<u32>, m: Measure)
    ensures
        t.total(seq![c] + rest, m) == t.adds(c as int, m) + t.total(rest, m),
    decreases rest.len(),
{
    let whole = seq![c] + rest;
    if rest.len() == 0 {
        assert(whole.drop_last() =~= Seq::empty());
        assert(whole.last() == c);
        assert(t.total(whole.drop_last(), m) == 0);
    } else {
        total_front(t, c, rest.drop_last(), m);
        assert(whole.drop_last() =~= seq![c] + rest.drop_last());
        assert(whole.last() == rest.last());
    }
}

proof fn folders_from(t: Tree, id: int, j: int)
    requires
        t.wf(),
        t.finalized(),
        is_whole(t),
        t.has(id),
        0 <= j <= t.kids_of(id).len(),
    ensures
        rollup::capped(t.total(t.kids_of(id).skip(j), Measure::Folders)) == rollup::capped(
            folder_sum(t, t.preorder_from(id, j)),
        ),
        folder_sum(t, t.preorder_from(id, j)) >= 0,
        t.total(t.kids_of(id).skip(j), Measure::Folders) >= 0,
    decreases t.size() - id, t.kids_of(id).len() - j,
{
    let k = t.kids_of(id);
    if j < k.len() {
        assert(t.kids_wf(id));
        let c = k[j] as int;
        assert(k.skip(j) =~= seq![k[j]] + k.skip(j + 1));
        total_front(t, k[j], k.skip(j + 1), Measure::Folders);
        assert(!t.at(c).removed);
        folders_from(t, id, j + 1);
        folder_sum_adds(t, t.preorder(c), t.preorder_from(id, j + 1));
        if t.at(c).dir {
            every_folder_is_counted(t, c);
        } else {
            assert(t.kids_of(c).len() == 0);
            assert(t.preorder_from(c, 0) =~= Seq::empty());
            let own = seq![c as u32];
            assert(t.preorder(c) =~= own);
            assert(own.drop_last() =~= Seq::empty());
            assert(folder_sum(t, own.drop_last()) == 0);
            assert(own.last() == c as u32);
            assert(folder_sum(t, own) == 0);
        }
    } else {
        assert(k.skip(j) =~= Seq::empty());
        assert(t.preorder_from(id, j) =~= Seq::empty());
    }
}

/// A file counts for its length, its bytes on disk, one file, no folder, and its
/// bytes on disk in its own category alone.
pub proof fn a_file_counts_for_itself(n: Node, k: int)
    ensures
        file_value(n, Measure::Logical) == n.logical,
        file_value(n, Measure::OnDisk) == n.on_disk,
        file_value(n, Measure::Files) == 1,
        file_value(n, Measure::Folders) == 0,
        k == n.kind.index() ==> file_value(n, Measure::Category(k)) == n.on_disk,
        k != n.kind.index() ==> file_value(n, Measure::Category(k)) == 0,
{
}

} // verus!
