//! Building a tree from directory listings: one batch per directory, a folder
//! before its contents. The caller lists the directories that the walk names.
use crate::builder;
use crate::category::FileCategory;
use crate::paths;
use crate::platform::{DirEntryData, ListError};
use crate::text;
use crate::tree::{BatchEntry, Node, Tree, NO_PARENT};
use vstd::prelude::*;

verus! {

/// A directory that is still to be listed.
#[derive(Clone, Debug)]
pub struct Pending {
    pub node: u32,
    pub path: String,
}

/// A walk over a directory tree.
#[derive(Debug)]
pub struct Walk {
    /// Directories in the order in which they were found.
    pub queue: Vec<Pending>,
    /// How many of them were handed out.
    pub next: usize,
}

/// Why a scan ends when a directory was listed: the scanned folder itself could
/// not be listed at all, or the tree has no room for the entries.
pub open spec fn ends_with(
    node: u32,
    nodes: int,
    entries: int,
    error: Option<ListError>,
) -> Option<Seq<char>> {
    if error is Some && node == 0 && entries == 0 {
        Some(
            match error->0 {
                ListError::AccessDenied => "Access denied."@,
                ListError::Vanished => "This folder no longer exists."@,
                ListError::Other(s) => s@,
            },
        )
    } else if nodes + entries >= NO_PARENT {
        Some("Too many files for one scan."@)
    } else {
        None
    }
}

/// Decides whether a scan ends when a directory was listed, and why.
pub fn scan_failure(
    tree: &Tree,
    node: u32,
    entries: &[DirEntryData],
    error: &Option<ListError>,
) -> (r: Option<String>)
    ensures
        crate::scan::text_of(r) == ends_with(node, tree.size() as int, entries@.len() as int, *error),
        r is None ==> tree.size() + entries@.len() < NO_PARENT,
{
    if let Some(e) = error {
        if node == 0 && entries.len() == 0 {
            return Some(
                match e {
                    ListError::AccessDenied => "Access denied.".to_owned(),
                    ListError::Vanished => "This folder no longer exists.".to_owned(),
                    ListError::Other(s) => s.clone(),
                },
            );
        }
    }
    let room: usize = NO_PARENT as usize;
    if tree.len() >= room || entries.len() >= room - tree.len() {
        return Some("Too many files for one scan.".to_owned());
    }
    None
}

/// The node that a listed entry becomes.
pub open spec fn node_of(e: DirEntryData, kind: FileCategory) -> Node {
    Node {
        parent: NO_PARENT,
        logical: if e.is_dir {
            0
        } else {
            e.logical
        },
        on_disk: if e.is_dir {
            0
        } else {
            e.on_disk
        },
        modified: e.modified,
        created: e.created,
        child_count: 0,
        dir_index: crate::tree::NO_EXTRA,
        dir: e.is_dir,
        removed: false,
        protected: false,
        cloud: e.cloud,
        kind: if e.is_dir {
            FileCategory::Other
        } else {
            kind
        },
    }
}

/// The walk goes into a folder that is not a link.
pub open spec fn is_entered(e: DirEntryData) -> bool {
    e.is_dir && e.reparse_tag is None
}

/// The directories that a listing adds to the walk, with the ids that its
/// entries get from `base` on.
pub open spec fn found_in(entries: Seq<DirEntryData>, path: Seq<char>, base: int) -> Seq<
    (u32, Seq<char>),
>
    decreases entries.len(),
{
    if entries.len() == 0 {
        Seq::empty()
    } else {
        let rest = found_in(entries.drop_last(), path, base);
        if is_entered(entries.last()) {
            rest.push(
                (
                    (base + entries.len() - 1) as u32,
                    paths::joined(path, text::lossy(entries.last().name@)),
                ),
            )
        } else {
            rest
        }
    }
}

/// The queue as ids and paths.
pub open spec fn queued(q: Seq<Pending>) -> Seq<(u32, Seq<char>)> {
    q.map_values(|p: Pending| (p.node, p.path@))
}

/// The batch holds the listed entries in order.
pub open spec fn batch_of(
    b: Seq<BatchEntry>,
    entries: Seq<DirEntryData>,
    kinds: Seq<FileCategory>,
) -> bool {
    b.len() == entries.len() && forall|i: int|
        0 <= i < b.len() ==> (#[trigger] b[i]).name@ == entries[i].name@ && b[i].node == node_of(
            entries[i],
            kinds[i],
        )
}

impl Walk {
    /// The directories that were found are nodes of the tree.
    pub open spec fn wf(&self, t: &Tree) -> bool {
        &&& self.next <= self.queue@.len()
        &&& forall|i: int| 0 <= i < self.queue@.len() ==> t.has((#[trigger] self.queue@[i]).node as int)
    }

    /// A walk from one directory.
    pub fn start(tree: &Tree, node: u32, path: &str) -> (r: Walk)
        requires
            tree.has(node as int),
        ensures
            r.wf(tree),
            r.next == 0,
            queued(r.queue@) == seq![(node, path@)],
    {
        let mut queue: Vec<Pending> = Vec::new();
        queue.push(Pending { node, path: path.to_owned() });
        assert(queued(queue@) =~= seq![(node, path@)]);
        Walk { queue, next: 0 }
    }

    /// Adds a further directory to start from.
    pub fn also(&mut self, tree: &Tree, node: u32, path: &str)
        requires
            old(self).wf(tree),
            tree.has(node as int),
        ensures
            final(self).wf(tree),
            final(self).next == old(self).next,
            queued(final(self).queue@) == queued(old(self).queue@).push((node, path@)),
    {
        let ghost before = self.queue@;
        self.queue.push(Pending { node, path: path.to_owned() });
        assert(queued(self.queue@) =~= queued(before).push((node, path@)));
        assert forall|i: int| 0 <= i < self.queue@.len() implies tree.has(
            (#[trigger] self.queue@[i]).node as int,
        ) by {
            if i < before.len() {
                assert(self.queue@[i] == before[i]);
            }
        }
    }

    /// The next directory to list; `None` at the end of the walk.
    pub fn next_dir(&mut self) -> (r: Option<(u32, String)>)
        requires
            old(self).next <= old(self).queue@.len(),
        ensures
            final(self).queue == old(self).queue,
            match r {
                Some((n, p)) => {
                    &&& old(self).next < old(self).queue@.len()
                    &&& final(self).next == old(self).next + 1
                    &&& n == old(self).queue@[old(self).next as int].node
                    &&& p@ == old(self).queue@[old(self).next as int].path@
                },
                None => old(self).next == old(self).queue@.len() && final(self).next == old(self).next,
            },
    {
        if self.next >= self.queue.len() {
            return None;
        }
        let p = &self.queue[self.next];
        let r = (p.node, p.path.clone());
        self.next = self.next + 1;
        Some(r)
    }

    /// Adds the entries of one directory to the tree and its folders to the walk.
    /// `kinds` holds the category of each entry.
    pub fn take(
        &mut self,
        tree: &mut Tree,
        node: u32,
        path: &str,
        entries: &Vec<DirEntryData>,
        kinds: &Vec<FileCategory>,
    )
        requires
            old(tree).wf(),
            old(tree).has(node as int),
            old(self).wf(old(tree)),
            kinds@.len() == entries@.len(),
            old(tree).size() + entries@.len() < NO_PARENT,
        ensures
            final(tree).wf(),
            exists|b: Seq<BatchEntry>|
                #[trigger] batch_of(b, entries@, kinds@) && builder::filled(
                    *old(tree),
                    *final(tree),
                    node,
                    b,
                ),
            final(self).wf(final(tree)),
            final(self).next == old(self).next,
            queued(final(self).queue@) == queued(old(self).queue@) + found_in(
                entries@,
                path@,
                old(tree).size(),
            ),
    {
        let ghost before = *tree;
        let ghost base = before.size();
        let ghost first = self.queue@;
        let mut batch: Vec<BatchEntry> = Vec::new();
        let mut i: usize = 0;
        assert(queued(first) + found_in(entries@.take(0), path@, base) =~= queued(first));
        while i < entries.len()
            invariant
                i <= entries.len(),
                kinds@.len() == entries@.len(),
                *tree == before,
                base == before.size(),
                base + entries@.len() < NO_PARENT,
                batch_of(batch@, entries@.take(i as int), kinds@.take(i as int)),
                self.next == old(self).next,
                self.next <= first.len(),
                first == old(self).queue@,
                self.queue@.len() >= first.len(),
                forall|k: int| 0 <= k < first.len() ==> before.has((#[trigger] first[k]).node as int),
                forall|k: int|
                    0 <= k < self.queue@.len() ==> (#[trigger] self.queue@[k]).node < base
                        + entries@.len(),
                queued(self.queue@) == queued(first) + found_in(
                    entries@.take(i as int),
                    path@,
                    base,
                ),
            decreases entries.len() - i,
        {
            let e = &entries[i];
            let mut node: Node = if e.is_dir {
                Node::new_dir()
            } else {
                Node::new_file()
            };
            if !e.is_dir {
                node.logical = e.logical;
                node.on_disk = e.on_disk;
                node.kind = kinds[i];
            }
            node.modified = e.modified;
            node.created = e.created;
            node.cloud = e.cloud;
            node.parent = NO_PARENT;
            node.child_count = 0;
            node.dir_index = crate::tree::NO_EXTRA;
            assert(node == node_of(*e, kinds@[i as int]));
            let mut name: Vec<u16> = Vec::new();
            name.extend_from_slice(e.name.as_slice());
            assert(name@ =~= e.name@);
            let ghost held = batch@;
            batch.push(BatchEntry { name, node });
            let ghost more = entries@.take(i + 1);
            proof {
                assert(more.drop_last() =~= entries@.take(i as int));
                assert(more.last() == entries@[i as int]);
                assert forall|k: int| 0 <= k < batch@.len() implies (#[trigger] batch@[k]).name@
                    == more[k].name@ && batch@[k].node == node_of(
                    more[k],
                    kinds@.take(i + 1)[k],
                ) by {
                    if k < i {
                        assert(batch@[k] == held[k]);
                        assert(more[k] == entries@.take(i as int)[k]);
                        assert(kinds@.take(i + 1)[k] == kinds@.take(i as int)[k]);
                    }
                }
            }
            if e.is_dir && e.reparse_tag.is_none() {
                let shown = text::lossy_string(e.name.as_slice());
                let id: u32 = (tree.arena.len() + i) as u32;
                let ghost q = self.queue@;
                let below = paths::join_path(path, shown.as_str());
                let ghost full = below@;
                self.queue.push(Pending { node: id, path: below });
                proof {
                    assert(queued(self.queue@) =~= queued(q).push((id, full)));
                    assert(queued(first) + found_in(entries@.take(i as int), path@, base).push(
                        (id, full),
                    ) =~= (queued(first) + found_in(entries@.take(i as int), path@, base)).push(
                        (id, full),
                    ));
                    assert forall|k: int| 0 <= k < self.queue@.len() implies (
                    #[trigger] self.queue@[k]).node < base + entries@.len() by {
                        if k < q.len() {
                            assert(self.queue@[k] == q[k]);
                        }
                    }
                }
            }
            i += 1;
        }
        assert(entries@.take(i as int) =~= entries@);
        assert(kinds@.take(i as int) =~= kinds@);
        let ghost b = batch@;
        let _ = tree.append_batch(node, batch);
        proof {
            assert(batch_of(b, entries@, kinds@));
            assert(builder::filled(before, *tree, node, b));
        }
    }
}

/// Nothing that a link leads to is ever walked: every directory that a listing
/// adds is one of its folders that is not a link.
pub proof fn links_are_never_entered(
    entries: Seq<DirEntryData>,
    path: Seq<char>,
    base: int,
    k: int,
)
    requires
        0 <= base,
        base + entries.len() <= u32::MAX,
        0 <= k < found_in(entries, path, base).len(),
    ensures
        ({
            let i = found_in(entries, path, base)[k].0 - base;
            0 <= i < entries.len() && entries[i].is_dir && entries[i].reparse_tag is None
        }),
    decreases entries.len(),
{
    if entries.len() > 0 {
        let rest = found_in(entries.drop_last(), path, base);
        if k < rest.len() {
            links_are_never_entered(entries.drop_last(), path, base, k);
            assert(found_in(entries, path, base)[k] == rest[k]);
        }
    }
}

/// A scan ends where the scanned folder itself could not be listed and gave no
/// entries, with the reason, or where the tree would reach its largest id; a
/// folder further down that cannot be listed does not end it.
pub proof fn only_the_root_or_a_full_tree_ends_a_scan(
    tree: &Tree,
    node: u32,
    entries: &[DirEntryData],
    error: &Option<ListError>,
    r: Option<String>,
)
    requires
        call_ensures(scan_failure, (tree, node, entries, error), r),
    ensures
        r is Some <==> (*error is Some && node == 0 && entries@.len() == 0) || tree.arena@.len()
            + entries@.len() >= 4294967295,
        node == 0 && entries@.len() == 0 && *error is Some ==> {
            &&& error->0 is AccessDenied ==> r->0@ == "Access denied."@
            &&& error->0 is Vanished ==> r->0@ == "This folder no longer exists."@
            &&& error->0 matches ListError::Other(s) ==> r->0@ == s@
        },
        !(node == 0 && entries@.len() == 0 && *error is Some) && r is Some ==> r->0@
            == "Too many files for one scan."@,
{
}

/// Every listed folder that is not a link is walked later, under the id that it
/// got and by the path of its name below the listed one; `at` gives the places of
/// these folders in the listing.
pub proof fn every_plain_folder_is_entered(
    entries: Seq<DirEntryData>,
    path: Seq<char>,
    base: int,
) -> (at: Seq<int>)
    requires
        0 <= base,
        base + entries.len() <= u32::MAX,
    ensures
        at.len() == found_in(entries, path, base).len(),
        forall|a: int, b: int| 0 <= a < b < at.len() ==> #[trigger] at[a] < #[trigger] at[b],
        forall|k: int|
            0 <= k < at.len() ==> {
                &&& 0 <= #[trigger] at[k] < entries.len()
                &&& found_in(entries, path, base)[k].0 == base + at[k]
                &&& found_in(entries, path, base)[k].1 == paths::joined(
                    path,
                    text::lossy(entries[at[k]].name@),
                )
            },
        forall|i: int|
            0 <= i < entries.len() ==> (at.contains(i) <==> (#[trigger] entries[i]).is_dir
                && entries[i].reparse_tag is None),
    decreases entries.len(),
{
    if entries.len() == 0 {
        Seq::empty()
    } else {
        let less = entries.drop_last();
        let rest = every_plain_folder_is_entered(less, path, base);
        let n = entries.len() - 1;
        let at = if is_entered(entries.last()) {
            rest.push(n)
        } else {
            rest
        };
        assert forall|k: int| 0 <= k < at.len() implies {
            &&& 0 <= #[trigger] at[k] < entries.len()
            &&& found_in(entries, path, base)[k].0 == base + at[k]
            &&& found_in(entries, path, base)[k].1 == paths::joined(
                path,
                text::lossy(entries[at[k]].name@),
            )
        } by {
            if k < rest.len() {
                assert(at[k] == rest[k]);
                assert(less[rest[k]] == entries[rest[k]]);
            }
        }
        assert forall|a: int, b: int| 0 <= a < b < at.len() implies #[trigger] at[a]
            < #[trigger] at[b] by {
            assert(at[a] == rest[a]);
            if b < rest.len() {
                assert(at[b] == rest[b]);
            }
        }
        assert forall|i: int| 0 <= i < entries.len() implies (at.contains(i) <==> (
        #[trigger] entries[i]).is_dir && entries[i].reparse_tag is None) by {
            if i < n {
                assert(less[i] == entries[i]);
                if rest.contains(i) {
                    let q = rest.index_of(i);
                    assert(at[q] == i);
                }
                if at.contains(i) {
                    let q = at.index_of(i);
                    assert(at[q] == i);
                    assert(q < rest.len());
                    assert(rest[q] == i);
                }
            } else {
                if at.len() > rest.len() {
                    assert(at[rest.len() as int] == i);
                }
                if at.contains(i) {
                    let q = at.index_of(i);
                    assert(at[q] == i);
                    if q < rest.len() {
                        assert(rest[q] == i);
                    }
                }
            }
        }
        at
    }
}

/// A listed entry becomes a live, unprotected node below the listed directory:
/// with its name, its times and its cloud mark, and if it is a file with its
/// sizes and its category.
pub proof fn a_listed_entry_becomes_a_node(
    a: Tree,
    b: Tree,
    node: u32,
    batch: Seq<BatchEntry>,
    entries: Seq<DirEntryData>,
    kinds: Seq<FileCategory>,
    i: int,
)
    requires
        a.wf(),
        kinds.len() == entries.len(),
        batch_of(batch, entries, kinds),
        builder::filled(a, b, node, batch),
        b.names@.len() == b.arena@.len(),
        0 <= i < entries.len(),
    ensures
        b.arena@.len() == a.arena@.len() + entries.len(),
        ({
            let id = a.arena@.len() + i;
            let n = b.arena@[id];
            let e = entries[i];
            &&& n.parent == node
            &&& n.dir == e.is_dir
            &&& n.modified == e.modified
            &&& n.created == e.created
            &&& n.cloud == e.cloud
            &&& !n.removed && !n.protected
            &&& e.is_dir ==> n.logical == 0 && n.on_disk == 0
            &&& !e.is_dir ==> n.logical == e.logical && n.on_disk == e.on_disk && n.kind == kinds[i]
            &&& b.names@[id]@ == e.name@
        }),
{
    let id = a.size() + i;
    assert(batch[i].node == node_of(entries[i], kinds[i]));
    assert(b.units(id) == batch[id - a.size()].name@);
    assert(b.at(id) == builder::placed(batch[id - a.size()].node, node, b.at(id).dir_index));
    assert(b.has(id));
}

} // verus!
