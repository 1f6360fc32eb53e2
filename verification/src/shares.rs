//! Per-folder category totals and size comparisons.
use crate::category::FileCategory;
use crate::order;
use crate::tree::Tree;
use vstd::prelude::*;

verus! {

/// A part of a whole, in bytes; the fraction is zero where the whole is empty.
#[derive(Clone, Copy, Debug, PartialEq, Eq, Structural)]
pub struct Share {
    pub part: u64,
    pub whole: u64,
}

/// The categories among the first `n` that hold bytes, with their sizes.
pub open spec fn filled_categories(sizes: Seq<u64>, n: nat) -> Seq<(u64, u32)>
    decreases n,
{
    if n == 0 {
        Seq::empty()
    } else {
        let rest = filled_categories(sizes, (n - 1) as nat);
        if sizes[n - 1] > 0 {
            rest.push((sizes[n - 1], (n - 1) as u32))
        } else {
            rest
        }
    }
}

/// At most the first `n` of a sequence.
pub open spec fn first_n<A>(s: Seq<A>, n: int) -> Seq<A> {
    if s.len() <= n {
        s
    } else {
        s.take(n)
    }
}

impl Tree {
    /// The categories of a folder that hold bytes, the largest first.
    pub open spec fn category_ranking(&self, id: int) -> Seq<(u64, u32)> {
        if self.has(id) && self.at(id).dir {
            order::ranking(filled_categories(self.extra(id).type_sizes@, 9))
        } else {
            Seq::empty()
        }
    }

    /// The category with the most bytes below a folder; `Other` where there are
    /// none.
    pub open spec fn dominant(&self, id: int) -> int {
        let r = self.category_ranking(id);
        if r.len() > 0 {
            r[0].1 as int
        } else {
            FileCategory::Other.index()
        }
    }

    /// Every ranked category is one.
    pub proof fn ranked_categories_exist(&self, id: int)
        ensures
            forall|i: int|
                0 <= i < self.category_ranking(id).len() ==> (#[trigger] self.category_ranking(
                    id,
                )[i]).1 < 9,
    {
        if self.has(id) && self.at(id).dir {
            let f = filled_categories(self.extra(id).type_sizes@, 9);
            filled_exist(self.extra(id).type_sizes@, 9);
            order::ranking_is_ranked(f);
            let r = self.category_ranking(id);
            assert forall|i: int| 0 <= i < r.len() implies (#[trigger] r[i]).1 < 9 by {
                assert(r.contains(r[i]));
                let j = f.index_of(r[i]);
                assert(f[j] == r[i]);
            }
        }
    }

    /// There are at most nine categories to rank.
    pub proof fn ranking_is_short(&self, id: int)
        ensures
            self.category_ranking(id).len() <= 9,
    {
        if self.has(id) && self.at(id).dir {
            filled_is_short(self.extra(id).type_sizes@, 9);
            order::ranking_is_ranked(filled_categories(self.extra(id).type_sizes@, 9));
        }
    }

    /// The `n` categories with the most bytes below a folder.
    pub fn top_categories(&self, id: u32, n: usize) -> (r: Vec<(FileCategory, u64)>)
        requires
            self.wf(),
        ensures
            r@.len() == first_n(self.category_ranking(id as int), n as int).len(),
            forall|i: int|
                0 <= i < r@.len() ==> (#[trigger] r@[i]).0.index() == self.category_ranking(
                    id as int,
                )[i].1 && r@[i].1 == self.category_ranking(id as int)[i].0,
    {
        let mut out: Vec<(FileCategory, u64)> = Vec::new();
        if (id as usize) >= self.arena.len() || !self.arena[id as usize].dir {
            return out;
        }
        let ghost full = self.category_ranking(id as int);
        assert(self.at(id as int).dir);
        let e = self.dir_extras[self.arena[id as usize].dir_index as usize];
        assert(e == self.extra(id as int));
        let mut pairs: Vec<(u64, u32)> = Vec::new();
        let mut k: usize = 0;
        while k < 9
            invariant
                k <= 9,
                pairs@ == filled_categories(e.type_sizes@, k as nat),
            decreases 9 - k,
        {
            if e.type_sizes[k] > 0 {
                pairs.push((e.type_sizes[k], k as u32));
            }
            k += 1;
        }
        let ranking = order::rank(pairs.as_slice());
        proof {
            self.ranked_categories_exist(id as int);
        }
        let mut i: usize = 0;
        while i < ranking.len() && i < n
            invariant
                i <= ranking.len(),
                i <= n,
                ranking@ == full,
                forall|j: int| 0 <= j < full.len() ==> (#[trigger] full[j]).1 < 9,
                out@.len() == i,
                forall|j: int|
                    0 <= j < i ==> (#[trigger] out@[j]).0.index() == full[j].1 && out@[j].1
                        == full[j].0,
            decreases ranking.len() - i,
        {
            let (size, c): (u64, u32) = ranking[i];
            assert(full[i as int].1 < 9);
            out.push((FileCategory::from_bits(c as u8), size));
            i += 1;
        }
        out
    }

    /// The category with the most bytes below a folder.
    pub fn dominant_category(&self, id: u32) -> (r: FileCategory)
        requires
            self.wf(),
        ensures
            r.index() == self.dominant(id as int),
    {
        let top = self.top_categories(id, 1);
        if top.len() > 0 {
            top[0].0
        } else {
            FileCategory::Other
        }
    }

    /// Allocated bytes beyond the logical size.
    pub fn cluster_overhead(&self, id: u32) -> (r: u64)
        ensures
            r == (if self.has(id as int) && self.at(id as int).on_disk > self.at(
                id as int,
            ).logical {
                self.at(id as int).on_disk - self.at(id as int).logical
            } else {
                0
            }),
    {
        if (id as usize) < self.arena.len() {
            self.arena[id as usize].on_disk.saturating_sub(self.arena[id as usize].logical)
        } else {
            0
        }
    }

    /// Logical bytes beyond the allocated size.
    pub fn compression_savings(&self, id: u32) -> (r: u64)
        ensures
            r == (if self.has(id as int) && self.at(id as int).logical > self.at(
                id as int,
            ).on_disk {
                self.at(id as int).logical - self.at(id as int).on_disk
            } else {
                0
            }),
    {
        if (id as usize) < self.arena.len() {
            self.arena[id as usize].logical.saturating_sub(self.arena[id as usize].on_disk)
        } else {
            0
        }
    }

    /// A node's part of its folder; the scan root is its own whole.
    pub open spec fn of_parent(&self, id: int) -> Share {
        if !self.has(id) {
            Share { part: 0, whole: 0 }
        } else if self.has(self.at(id).parent as int) {
            Share { part: self.at(id).on_disk, whole: self.at(self.at(id).parent as int).on_disk }
        } else {
            Share { part: self.at(id).on_disk, whole: self.at(id).on_disk }
        }
    }

    /// A node's part of its folder.
    pub fn share_of_parent(&self, id: u32) -> (r: Share)
        ensures
            r == self.of_parent(id as int),
    {
        if (id as usize) >= self.arena.len() {
            return Share { part: 0, whole: 0 };
        }
        let n = self.arena[id as usize];
        if (n.parent as usize) < self.arena.len() {
            Share { part: n.on_disk, whole: self.arena[n.parent as usize].on_disk }
        } else {
            Share { part: n.on_disk, whole: n.on_disk }
        }
    }

    /// Logical bytes, bytes on disk, files and folders of the whole scan.
    pub fn root_stats(&self) -> (r: (u64, u64, u64, u64))
        requires
            self.wf(),
        ensures
            r.0 == self.at(0).logical,
            r.1 == self.at(0).on_disk,
            self.at(0).dir ==> r.2 == self.extra(0).file_count && r.3 == self.extra(0).folder_count,
            !self.at(0).dir ==> r.2 == 0 && r.3 == 0,
    {
        let n = self.arena[0];
        if n.dir {
            assert(self.at(0).dir);
            let e = self.dir_extras[n.dir_index as usize];
            (n.logical, n.on_disk, e.file_count, e.folder_count)
        } else {
            (n.logical, n.on_disk, 0, 0)
        }
    }
}

proof fn filled_exist(sizes: Seq<u64>, n: nat)
    requires
        n <= 9,
    ensures
        forall|i: int|
            0 <= i < filled_categories(sizes, n).len() ==> (#[trigger] filled_categories(
                sizes,
                n,
            )[i]).1 < 9,
    decreases n,
{
    if n > 0 {
        filled_exist(sizes, (n - 1) as nat);
        let rest = filled_categories(sizes, (n - 1) as nat);
        let whole = filled_categories(sizes, n);
        assert forall|i: int| 0 <= i < whole.len() implies (#[trigger] whole[i]).1 < 9 by {
            if i < rest.len() {
                assert(whole[i] == rest[i]);
            }
        }
    }
}

proof fn filled_is_short(sizes: Seq<u64>, n: nat)
    ensures
        filled_categories(sizes, n).len() <= n,
    decreases n,
{
    if n > 0 {
        filled_is_short(sizes, (n - 1) as nat);
    }
}

proof fn filled_members(sizes: Seq<u64>, n: nat)
    requires
        n <= 9,
    ensures
        forall|i: int|
            0 <= i < filled_categories(sizes, n).len() ==> {
                let e = #[trigger] filled_categories(sizes, n)[i];
                e.1 < n && e.0 == sizes[e.1 as int] && e.0 > 0
            },
        forall|i: int, j: int|
            0 <= i < j < filled_categories(sizes, n).len() ==> (#[trigger] filled_categories(
                sizes,
                n,
            )[i]).1 < (#[trigger] filled_categories(sizes, n)[j]).1,
        forall|k: int|
            0 <= k < n && #[trigger] sizes[k] > 0 ==> filled_categories(sizes, n).contains(
                (sizes[k], k as u32),
            ),
    decreases n,
{
    if n > 0 {
        filled_members(sizes, (n - 1) as nat);
        let rest = filled_categories(sizes, (n - 1) as nat);
        let whole = filled_categories(sizes, n);
        assert forall|i: int| 0 <= i < whole.len() implies {
            let e = #[trigger] whole[i];
            e.1 < n && e.0 == sizes[e.1 as int] && e.0 > 0
        } by {
            if i < rest.len() {
                assert(whole[i] == rest[i]);
            }
        }
        assert forall|i: int, j: int| 0 <= i < j < whole.len() implies (#[trigger] whole[i]).1 < (
        #[trigger] whole[j]).1 by {
            assert(whole[i] == rest[i]);
            if j < rest.len() {
                assert(whole[j] == rest[j]);
            }
        }
        assert forall|k: int| 0 <= k < n && #[trigger] sizes[k] > 0 implies whole.contains(
            (sizes[k], k as u32),
        ) by {
            let e = (sizes[k], k as u32);
            if k < n - 1 {
                let q = rest.index_of(e);
                assert(whole[q] == e);
            } else {
                assert(whole[rest.len() as int] == e);
            }
        }
    }
}

/// The ranked categories of a folder are those with bytes, each once and with
/// its bytes, the largest first and equal ones in category order.
pub proof fn categories_are_ranked(t: Tree, id: int)
    requires
        t.wf(),
        0 <= id < t.arena@.len(),
        t.arena@[id].dir,
    ensures
        ({
            let sizes = t.dir_extras@[t.arena@[id].dir_index as int].type_sizes@;
            let r = t.category_ranking(id);
            &&& forall|i: int|
                0 <= i < r.len() ==> {
                    &&& (#[trigger] r[i]).1 < 9
                    &&& r[i].0 == sizes[r[i].1 as int]
                    &&& r[i].0 > 0
                }
            &&& forall|i: int, j: int|
                0 <= i < j < r.len() ==> (#[trigger] r[i]).0 > (#[trigger] r[j]).0 || (r[i].0
                    == r[j].0 && r[i].1 < r[j].1)
            &&& forall|k: int|
                0 <= k < 9 && #[trigger] sizes[k] > 0 ==> r.contains((sizes[k], k as u32))
        }),
{
    let sizes = t.extra(id).type_sizes@;
    assert(sizes.len() == 9);
    let f = filled_categories(sizes, 9);
    let r = t.category_ranking(id);
    filled_members(sizes, 9);
    order::ranking_is_ranked(f);
    assert(f.no_duplicates()) by {
        assert forall|i: int, j: int| 0 <= i < f.len() && 0 <= j < f.len() && i != j implies f[i]
            != f[j] by {
            if i < j {
                assert(f[i].1 < f[j].1);
            } else {
                assert(f[j].1 < f[i].1);
            }
        }
    }
    assert forall|i: int| 0 <= i < r.len() implies {
        &&& (#[trigger] r[i]).1 < 9
        &&& r[i].0 == sizes[r[i].1 as int]
        &&& r[i].0 > 0
    } by {
        assert(r.contains(r[i]));
        let q = f.index_of(r[i]);
        assert(f[q] == r[i]);
    }
    assert forall|i: int, j: int| 0 <= i < j < r.len() implies (#[trigger] r[i]).0 > (
    #[trigger] r[j]).0 || (r[i].0 == r[j].0 && r[i].1 < r[j].1) by {
        assert(order::before(r[i], r[j]));
        assert(r[i] != r[j]);
    }
    assert forall|k: int| 0 <= k < 9 && #[trigger] sizes[k] > 0 implies r.contains(
        (sizes[k], k as u32),
    ) by {
        assert(f.contains((sizes[k], k as u32)));
    }
}

/// The categories with the most bytes below a folder come first, each with its
/// bytes and none of them empty; what is missing stands behind as many as were
/// asked for. A file has none.
pub proof fn the_fullest_categories_come_first(
    t: &Tree,
    id: u32,
    n: usize,
    r: Vec<(FileCategory, u64)>,
)
    requires
        t.wf(),
        id < t.arena@.len(),
        call_ensures(Tree::top_categories, (t, id, n), r),
    ensures
        !t.arena@[id as int].dir ==> r@.len() == 0,
        t.arena@[id as int].dir ==> {
            let sizes = t.dir_extras@[t.arena@[id as int].dir_index as int].type_sizes@;
            &&& r@.len() <= n
            &&& forall|i: int|
                0 <= i < r@.len() ==> (#[trigger] r@[i]).1 > 0 && r@[i].1
                    == sizes[r@[i].0.index()]
            &&& forall|i: int, j: int|
                0 <= i < j < r@.len() ==> (#[trigger] r@[i]).1 > (#[trigger] r@[j]).1 || (r@[i].1
                    == r@[j].1 && r@[i].0.index() < r@[j].0.index())
            &&& forall|k: int|
                0 <= k < 9 && #[trigger] sizes[k] > 0 ==> {
                    ||| exists|i: int| 0 <= i < r@.len() && (#[trigger] r@[i]).0.index() == k
                    ||| r@.len() == n && forall|i: int|
                        0 <= i < n ==> (#[trigger] r@[i]).1 >= sizes[k]
                }
        },
{
    if t.at(id as int).dir {
        categories_are_ranked(*t, id as int);
        let sizes = t.extra(id as int).type_sizes@;
        let full = t.category_ranking(id as int);
        assert forall|i: int| 0 <= i < r@.len() implies (#[trigger] r@[i]).0.index() == full[i].1
            && r@[i].1 == full[i].0 by {}
        assert forall|i: int, j: int| 0 <= i < j < r@.len() implies (#[trigger] r@[i]).1 > (
        #[trigger] r@[j]).1 || (r@[i].1 == r@[j].1 && r@[i].0.index() < r@[j].0.index()) by {
            assert(full[i].0 > full[j].0 || (full[i].0 == full[j].0 && full[i].1 < full[j].1));
        }
        assert forall|k: int| 0 <= k < 9 && #[trigger] sizes[k] > 0 implies {
            ||| exists|i: int| 0 <= i < r@.len() && (#[trigger] r@[i]).0.index() == k
            ||| r@.len() == n && forall|i: int| 0 <= i < n ==> (#[trigger] r@[i]).1 >= sizes[k]
        } by {
            let e = (sizes[k], k as u32);
            assert(full.contains(e));
            let q = full.index_of(e);
            assert(full[q] == e);
            if q < n {
                assert(r@[q].0.index() == k);
            } else {
                assert forall|i: int| 0 <= i < n implies (#[trigger] r@[i]).1 >= sizes[k] by {
                    assert(full[i].0 > full[q].0 || (full[i].0 == full[q].0 && full[i].1
                        < full[q].1));
                }
            }
        }
    }
}

/// No category below a folder holds more bytes than the dominant one, and of
/// those that hold as many none comes earlier; without any bytes, and for a
/// file, it is `Other`.
pub proof fn no_category_holds_more_than_the_dominant_one(t: &Tree, id: u32, c: FileCategory)
    requires
        t.wf(),
        id < t.arena@.len(),
        call_ensures(Tree::dominant_category, (t, id), c),
    ensures
        !t.arena@[id as int].dir ==> c is Other,
        t.arena@[id as int].dir ==> {
            let sizes = t.dir_extras@[t.arena@[id as int].dir_index as int].type_sizes@;
            &&& (forall|k: int| 0 <= k < 9 ==> #[trigger] sizes[k] == 0) ==> c is Other
            &&& forall|k: int|
                0 <= k < 9 && #[trigger] sizes[k] > 0 ==> sizes[c.index()] > sizes[k] || (
                sizes[c.index()] == sizes[k] && c.index() <= k)
        },
{
    if t.at(id as int).dir {
        categories_are_ranked(*t, id as int);
        let sizes = t.extra(id as int).type_sizes@;
        let full = t.category_ranking(id as int);
        assert forall|k: int| 0 <= k < 9 && #[trigger] sizes[k] > 0 implies sizes[c.index()]
            > sizes[k] || (sizes[c.index()] == sizes[k] && c.index() <= k) by {
            let e = (sizes[k], k as u32);
            assert(full.contains(e));
            let q = full.index_of(e);
            assert(full[q] == e);
            if q > 0 {
                assert(full[0].0 > full[q].0 || (full[0].0 == full[q].0 && full[0].1 < full[q].1));
            }
        }
        if forall|k: int| 0 <= k < 9 ==> #[trigger] sizes[k] == 0 {
            if full.len() > 0 {
                assert(full[0].0 > 0);
            }
        }
    }
}

/// What a node takes on disk beyond its length and what it saves make up the
/// difference of the two; at most one of them is not zero.
pub proof fn overhead_and_savings_balance(t: &Tree, id: u32, over: u64, saved: u64)
    requires
        call_ensures(Tree::cluster_overhead, (t, id), over),
        call_ensures(Tree::compression_savings, (t, id), saved),
    ensures
        over == 0 || saved == 0,
        id < t.arena@.len() ==> t.arena@[id as int].logical + over == t.arena@[id as int].on_disk
            + saved,
        id >= t.arena@.len() ==> over == 0 && saved == 0,
{
}

/// A node's part is its own size on disk, its whole the size of its folder, or
/// its own size where no folder holds it.
pub proof fn a_share_compares_with_the_folder(t: &Tree, id: u32, r: Share)
    requires
        call_ensures(Tree::share_of_parent, (t, id), r),
    ensures
        id < t.arena@.len() ==> ({
            let up = t.arena@[id as int].parent;
            &&& r.part == t.arena@[id as int].on_disk
            &&& up < t.arena@.len() ==> r.whole == t.arena@[up as int].on_disk
            &&& up >= t.arena@.len() ==> r.whole == r.part
        }),
        id >= t.arena@.len() ==> r.part == 0 && r.whole == 0,
{
}

/// The figures of a scan are those of its first node.
pub proof fn a_scan_is_told_by_its_first_node(t: &Tree, r: (u64, u64, u64, u64))
    requires
        t.wf(),
        call_ensures(Tree::root_stats, (t,), r),
    ensures
        r.0 == t.arena@[0].logical,
        r.1 == t.arena@[0].on_disk,
        t.arena@[0].dir ==> ({
            let e = t.dir_extras@[t.arena@[0].dir_index as int];
            r.2 == e.file_count && r.3 == e.folder_count
        }),
        !t.arena@[0].dir ==> r.2 == 0 && r.3 == 0,
{
}

} // verus!
