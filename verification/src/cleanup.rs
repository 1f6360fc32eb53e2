//! Committing the cleanup queue: staged items are checked against the tree, the
//! recycled ones are found again by their display paths, and a tree without
//! them replaces the old one only where that is still the current one.
use crate::paths;
use crate::platform::BinPolicy;
use crate::scan::{ScanState, Stats};
use crate::text;
use crate::surgery;
use crate::tree::{Tree, NO_PARENT};
use vstd::prelude::*;

verus! {

/// One staged item of the queue.
#[derive(Clone, Debug)]
pub struct CommitItem {
    /// Node id (0 for an item known only by its path).
    pub id: u32,
    /// Display path.
    pub path: String,
    /// Size on disk.
    pub size: u64,
    /// Why it was staged.
    pub reason: String,
}

/// An item ready for the recycle bin.
#[derive(Clone, Debug)]
pub struct StagedPath {
    pub id: u32,
    pub path: String,
    pub size: u64,
    /// Refused, whatever the bin would say.
    pub protected: bool,
}

// ---------------------------------------------------------------------------
// Queue
// ---------------------------------------------------------------------------

/// Bytes of the queue.
pub open spec fn queue_bytes(items: Seq<CommitItem>) -> int
    decreases items.len(),
{
    if items.len() == 0 {
        0
    } else {
        queue_bytes(items.drop_last()) + items.last().size
    }
}

proof fn queue_bytes_grow(items: Seq<CommitItem>, n: int)
    requires
        0 <= n <= items.len(),
    ensures
        0 <= queue_bytes(items.take(n)) <= queue_bytes(items),
    decreases items.len(),
{
    if n == items.len() {
        assert(items.take(n) =~= items);
        if n > 0 {
            queue_bytes_grow(items.drop_last(), 0);
            assert(items.drop_last().take(0) =~= Seq::<CommitItem>::empty());
        }
    } else {
        queue_bytes_grow(items.drop_last(), n);
        assert(items.drop_last().take(n) =~= items.take(n));
    }
}

/// Bytes of the queue; `None` where they do not fit in 64 bits.
pub fn queue_total(items: &[CommitItem]) -> (r: Option<u64>)
    ensures
        r == (if queue_bytes(items@) <= u64::MAX {
            Some(queue_bytes(items@) as u64)
        } else {
            None
        }),
{
    let mut sum: u64 = 0;
    let mut i: usize = 0;
    while i < items.len()
        invariant
            i <= items.len(),
            sum == queue_bytes(items@.take(i as int)),
        decreases items.len() - i,
    {
        proof {
            assert(items@.take(i + 1).drop_last() =~= items@.take(i as int));
            queue_bytes_grow(items@, i + 1);
        }
        match sum.checked_add(items[i].size) {
            Some(s) => {
                sum = s;
            },
            None => {
                return None;
            },
        }
        i += 1;
    }
    assert(items@.take(i as int) =~= items@);
    Some(sum)
}

/// The item must not be moved: its node is protected or a cloud placeholder, or
/// it has no path.
pub open spec fn refused(t: Tree, item: CommitItem) -> bool {
    ||| item.path@.len() == 0
    ||| t.has(item.id as int) && (t.at(item.id as int).protected || t.at(item.id as int).cloud)
}

impl StagedPath {
    /// The staged form of an item.
    pub open spec fn stages(&self, t: Tree, item: CommitItem) -> bool {
        &&& self.id == item.id
        &&& self.path@ == item.path@
        &&& self.size == item.size
        &&& self.protected == refused(t, item)
    }
}

/// Joins the tree's flags onto the queue.
pub fn stage_items(tree: &Tree, items: &[CommitItem]) -> (r: Vec<StagedPath>)
    requires
        tree.wf(),
    ensures
        r@.len() == items@.len(),
        forall|i: int| 0 <= i < r@.len() ==> (#[trigger] r@[i]).stages(*tree, items@[i]),
{
    let mut out: Vec<StagedPath> = Vec::new();
    let mut i: usize = 0;
    while i < items.len()
        invariant
            i <= items.len(),
            tree.wf(),
            out@.len() == i,
            forall|k: int| 0 <= k < i ==> (#[trigger] out@[k]).stages(*tree, items@[k]),
        decreases items.len() - i,
    {
        let item = &items[i];
        let flagged = match tree.node(item.id) {
            Some(n) => n.protected || n.cloud,
            None => false,
        };
        let empty_path = item.path.as_str().is_empty();
        out.push(
            StagedPath {
                id: item.id,
                path: item.path.clone(),
                size: item.size,
                protected: flagged || empty_path,
            },
        );
        i += 1;
    }
    out
}

/// Protected files and cloud placeholders of the tree are never staged for a
/// move, and never moved.
pub proof fn protected_items_are_refused(t: Tree, item: CommitItem, s: StagedPath)
    requires
        s.stages(t, item),
        t.has(item.id as int),
        t.at(item.id as int).protected || t.at(item.id as int).cloud,
    ensures
        s.protected,
        forall|missing: bool, fixed: bool, policy: BinPolicy| #[trigger]
            decision(s.protected, s.size, missing, fixed, policy) == Preflight::Protected,
{
}

// ---------------------------------------------------------------------------
// Finding recycled nodes
// ---------------------------------------------------------------------------

/// What stands before the last name of a joined path.
proof fn joined_parts(path: Seq<char>, name: Seq<char>, s: Seq<char>)
    ensures
        paths::joined(path, name) == s <==> {
            let k = s.len() - name.len();
            &&& name.is_suffix_of(s)
            &&& {
                ||| path == s.take(k) && path.len() > 0 && (path.last() == '\\' || path.last()
                    == '/')
                ||| k > 0 && path == s.take(k - 1) && !(path.len() > 0 && (path.last() == '\\'
                    || path.last() == '/')) && s[k - 1] == (if path.len() > 0 && path[0] == '/' {
                    '/'
                } else {
                    '\\'
                })
            }
        },
{
    let k = s.len() - name.len();
    let closed = path.len() > 0 && (path.last() == '\\' || path.last() == '/');
    let sep = if path.len() > 0 && path[0] == '/' {
        '/'
    } else {
        '\\'
    };
    if paths::joined(path, name) == s {
        assert(s.subrange(k, s.len() as int) =~= name);
        if closed {
            assert(s.take(k) =~= path);
        } else {
            assert(s == path.push(sep) + name);
            assert(s.take(k - 1) =~= path);
            assert(s[k - 1] == sep);
        }
    }
    if name.is_suffix_of(s) {
        assert(s =~= s.take(k) + name);
        if closed && path == s.take(k) {
            assert(paths::joined(path, name) =~= s);
        }
        if !closed && k > 0 && path == s.take(k - 1) && s[k - 1] == sep {
            assert(s.take(k) =~= path.push(sep));
            assert(paths::joined(path, name) =~= s);
        }
    }
}

/// Whether the display path of a node is `cs` up to `end`, compared from the
/// right without building it.
fn path_is(tree: &Tree, id: u32, cs: &Vec<char>, end: usize) -> (r: bool)
    requires
        tree.wf(),
        end <= cs.len(),
    ensures
        r == (tree.path_of(id as int) == cs@.take(end as int)),
    decreases id,
{
    let ghost s = cs@.take(end as int);
    match tree.own_path(id) {
        Some(p) => {
            let pc = text::chars_of(p.as_str());
            let head = text::slice_chars(cs.as_slice(), 0, end);
            assert(head@ =~= s);
            text::same_chars(pc.as_slice(), head.as_slice())
        },
        None => {
            let name = text::lossy_chars(tree.name_u16(id));
            if (id as usize) < tree.arena.len() && tree.arena[id as usize].parent < id {
                let parent = tree.arena[id as usize].parent;
                let ghost above = tree.path_of(parent as int);
                proof {
                    joined_parts(above, name@, s);
                }
                if name.len() > end {
                    return false;
                }
                let k: usize = end - name.len();
                if !text::found_at(cs.as_slice(), name.as_slice(), k) {
                    assert(s.subrange(k as int, end as int) =~= cs@.subrange(k as int, end as int));
                    return false;
                }
                assert(s.subrange(k as int, end as int) =~= cs@.subrange(k as int, end as int));
                if k == 0 {
                    assert(s.take(0) =~= Seq::empty());
                    return false;
                }
                let last = cs[k - 1];
                assert(s.take(k as int) =~= cs@.take(k as int));
                assert(s.take(k - 1) =~= cs@.take(k - 1));
                if last != '\\' && last != '/' {
                    assert(cs@.take(k as int).last() == last);
                    return false;
                }
                if path_is(tree, parent, cs, k) {
                    assert(cs@.take(k as int).last() == last);
                    return true;
                }
                if k > 1 && (cs[k - 2] == '\\' || cs[k - 2] == '/') {
                    assert(cs@.take(k - 1).last() == cs@[k - 2]);
                    return false;
                }
                let sep = if k > 1 && cs[0] == '/' {
                    '/'
                } else {
                    '\\'
                };
                proof {
                    if k > 1 {
                        assert(cs@.take(k - 1)[0] == cs@[0]);
                        assert(cs@.take(k - 1).last() == cs@[k - 2]);
                    }
                }
                last == sep && path_is(tree, parent, cs, k - 1)
            } else {
                let head = text::slice_chars(cs.as_slice(), 0, end);
                assert(head@ =~= s);
                text::same_chars(name.as_slice(), head.as_slice())
            }
        },
    }
}

/// Whether a node has the given display path.
pub fn path_matches(tree: &Tree, idx: u32, path: &str) -> (r: bool)
    requires
        tree.wf(),
    ensures
        r == (tree.path_of(idx as int) == path@),
{
    let cs = text::chars_of(path);
    assert(cs@.take(cs@.len() as int) =~= cs@);
    path_is(tree, idx, &cs, cs.len())
}

/// A live node other than the scan root with the given display path.
pub open spec fn is_at(t: Tree, id: int, path: Seq<char>) -> bool {
    !t.at(id).removed && t.at(id).parent != NO_PARENT && t.path_of(id) == path
}

/// The first node with a display path among those from `n` on; 0 where there is
/// none.
pub open spec fn found_from(t: Tree, path: Seq<char>, n: int) -> int
    decreases t.size() - n,
{
    if n < 0 || n >= t.size() {
        0
    } else if is_at(t, n, path) {
        n
    } else {
        found_from(t, path, n + 1)
    }
}

/// The node with a display path; 0 where there is none, and for an empty path.
pub open spec fn found(t: Tree, path: Seq<char>) -> int {
    if path.len() == 0 {
        0
    } else {
        found_from(t, path, 0)
    }
}

/// Finds the node with a display path (0 where there is none).
pub fn tree_lookup_id(tree: &Tree, path: &str) -> (r: u32)
    requires
        tree.wf(),
    ensures
        r as int == found(*tree, path@),
{
    if path.is_empty() {
        return 0;
    }
    let mut i: usize = 0;
    while i < tree.arena.len()
        invariant
            tree.wf(),
            i <= tree.arena.len(),
            path@.len() > 0,
            found(*tree, path@) == found_from(*tree, path@, i as int),
        decreases tree.arena.len() - i,
    {
        let n = tree.arena[i];
        if !n.removed && n.parent != NO_PARENT {
            if path_matches(tree, i as u32, path) {
                return i as u32;
            }
        }
        i += 1;
    }
    0
}

/// The display path of a live node leads back to a live node with that path;
/// where no other node has it, to the node itself.
pub proof fn display_paths_lead_back(t: Tree, id: int)
    requires
        t.wf(),
        t.has(id),
        id != 0,
        !t.at(id).removed,
        t.path_of(id).len() > 0,
    ensures
        found(t, t.path_of(id)) > 0,
        is_at(t, found(t, t.path_of(id)), t.path_of(id)),
        (forall|x: int|
            t.has(x) && x != id ==> #[trigger] t.path_of(x) != t.path_of(id)) ==> found(
            t,
            t.path_of(id),
        ) == id,
{
    assert(t.parent_wf(id));
    assert(t.parent_wf(0));
    found_exists(t, t.path_of(id), 0, id);
}

proof fn found_exists(t: Tree, path: Seq<char>, n: int, id: int)
    requires
        t.wf(),
        0 <= n <= id < t.size(),
        is_at(t, id, path),
        !is_at(t, 0, path),
    ensures
        0 < found_from(t, path, n) < t.size(),
        is_at(t, found_from(t, path, n), path),
    decreases id - n,
{
    if !is_at(t, n, path) {
        found_exists(t, path, n + 1, id);
    }
}

/// The nodes found for some paths, in order, without the paths that lead to
/// none.
pub open spec fn found_all(t: Tree, list: Seq<Seq<char>>) -> Seq<u32>
    decreases list.len(),
{
    if list.len() == 0 {
        Seq::empty()
    } else {
        let rest = found_all(t, list.drop_last());
        let id = found(t, list.last());
        if id > 0 {
            rest.push(id as u32)
        } else {
            rest
        }
    }
}

/// The nodes of the recycled paths.
pub fn removed_ids(tree: &Tree, trashed: &[String]) -> (r: Vec<u32>)
    requires
        tree.wf(),
    ensures
        r@ == found_all(*tree, crate::scan::strings(trashed@)),
{
    let ghost list = crate::scan::strings(trashed@);
    let mut out: Vec<u32> = Vec::new();
    let mut i: usize = 0;
    while i < trashed.len()
        invariant
            tree.wf(),
            i <= trashed.len(),
            list == crate::scan::strings(trashed@),
            out@ == found_all(*tree, list.take(i as int)),
        decreases trashed.len() - i,
    {
        let id = tree_lookup_id(tree, trashed[i].as_str());
        proof {
            assert(list.take(i + 1).drop_last() =~= list.take(i as int));
            assert(list.take(i + 1).last() == trashed@[i as int]@);
        }
        if id > 0 {
            out.push(id);
        }
        i += 1;
    }
    assert(list.take(i as int) =~= list);
    out
}

// ---------------------------------------------------------------------------
// Recycling
// ---------------------------------------------------------------------------

/// What is done with a staged item.
#[derive(Clone, Copy, Debug, PartialEq, Eq, Structural)]
pub enum Preflight {
    /// Nothing: the item may not be touched.
    Protected,
    /// It is no longer there, which counts as recycled.
    Gone,
    /// Nothing: its drive has no recycle bin.
    NotFixed,
    /// Nothing: its drive deletes instead of recycling.
    BinDisabled,
    /// Nothing: it is larger than the bin.
    TooLarge,
    /// It is moved to the bin.
    Move,
}

/// An item fits in the bin, where that has a limit.
pub open spec fn fits(size: u64, policy: BinPolicy) -> bool {
    policy.max_capacity_mb matches Some(mb) ==> size <= mb * 1048576
}

/// What is done with an item of a size, by whether it is protected, whether it
/// is missing, whether its drive is a fixed one, and what its bin does.
pub open spec fn decision(
    protected: bool,
    size: u64,
    missing: bool,
    fixed: bool,
    policy: BinPolicy,
) -> Preflight {
    if protected {
        Preflight::Protected
    } else if missing {
        Preflight::Gone
    } else if !fixed {
        Preflight::NotFixed
    } else if policy.nuke_on_delete {
        Preflight::BinDisabled
    } else if !fits(size, policy) {
        Preflight::TooLarge
    } else {
        Preflight::Move
    }
}

/// Decides what is done with a staged item before anything is moved.
pub fn preflight(item: &StagedPath, missing: bool, fixed: bool, policy: &BinPolicy) -> (r: Preflight)
    ensures
        r == decision(item.protected, item.size, missing, fixed, *policy),
{
    if item.protected {
        return Preflight::Protected;
    }
    if missing {
        return Preflight::Gone;
    }
    if !fixed {
        return Preflight::NotFixed;
    }
    if policy.nuke_on_delete {
        return Preflight::BinDisabled;
    }
    if let Some(mb) = policy.max_capacity_mb {
        if (item.size as u128) > (mb as u128) * 1048576 {
            return Preflight::TooLarge;
        }
    }
    Preflight::Move
}

/// Only what the bin will keep is moved: nothing protected, nothing on a drive
/// without a bin or with one that deletes, nothing too large for it.
pub proof fn only_recyclable_items_are_moved(
    protected: bool,
    size: u64,
    missing: bool,
    fixed: bool,
    policy: BinPolicy,
)
    ensures
        decision(protected, size, missing, fixed, policy) == Preflight::Move <==> !protected
            && !missing && fixed && !policy.nuke_on_delete && fits(size, policy),
{
}

/// Why an item is refused; `None` where it is not.
pub open spec fn refusal_text(p: Preflight) -> Option<Seq<char>> {
    match p {
        Preflight::Protected => Some("This item is protected and stays where it is."@),
        Preflight::NotFixed => Some("This drive has no Recycle Bin."@),
        Preflight::BinDisabled => Some("The Recycle Bin of this drive is turned off."@),
        Preflight::TooLarge => Some("This item is larger than the Recycle Bin."@),
        Preflight::Gone => None,
        Preflight::Move => None,
    }
}

/// Why an item was refused; `None` where it was not.
pub fn refusal(p: Preflight) -> (r: Option<String>)
    ensures
        crate::scan::text_of(r) == refusal_text(p),
{
    match p {
        Preflight::Protected => Some("This item is protected and stays where it is.".to_owned()),
        Preflight::NotFixed => Some("This drive has no Recycle Bin.".to_owned()),
        Preflight::BinDisabled => Some("The Recycle Bin of this drive is turned off.".to_owned()),
        Preflight::TooLarge => Some("This item is larger than the Recycle Bin.".to_owned()),
        Preflight::Gone => None,
        Preflight::Move => None,
    }
}

// ---------------------------------------------------------------------------
// Committing
// ---------------------------------------------------------------------------

/// The larger of two generations.
pub open spec fn later(a: u64, b: u64) -> u64 {
    if a >= b {
        a
    } else {
        b
    }
}

impl<T> ScanState<T> {
    /// The state after a tree without the recycled nodes was offered: it
    /// replaces the tree it was made from, and nothing else; the generation
    /// catches up with the new one either way.
    pub open spec fn committed(self, from: u64, tree: T, new_generation: u64) -> ScanState<T> {
        let s = ScanState { generation: later(self.generation, new_generation), ..self };
        if self.tree is Some && self.tree_generation == from {
            ScanState { tree: Some(tree), tree_generation: new_generation, ..s }
        } else {
            s
        }
    }

    /// Offers a tree without the recycled nodes; returns the tree to drop.
    pub fn commit_tree(&mut self, from: u64, tree: T, new_generation: u64) -> (r: Option<T>)
        ensures
            *final(self) == old(self).committed(from, tree, new_generation),
            r == (if old(self).tree is Some && old(self).tree_generation == from {
                old(self).tree
            } else {
                Some(tree)
            }),
            old(self).tree is Some && old(self).tree_generation == from ==> final(self).tree == Some(
                tree,
            ) && final(self).tree_generation == new_generation,
            old(self).tree is None || old(self).tree_generation != from ==> final(self).tree == old(self).tree && final(self).tree_generation == old(self).tree_generation,
            final(self).generation >= old(self).generation,
            final(self).generation >= new_generation,
            final(self).generation == old(self).generation || final(self).generation
                == new_generation,
    {
        if new_generation > self.generation {
            self.generation = new_generation;
        }
        if self.tree.is_some() && self.tree_generation == from {
            let mut slot: Option<T> = Some(tree);
            std::mem::swap(&mut slot, &mut self.tree);
            self.tree_generation = new_generation;
            slot
        } else {
            Some(tree)
        }
    }
}

/// A scan that finished while the commit was under way keeps its tree, and the
/// next scan never reuses the commit's generation.
pub proof fn a_fresh_scan_wins_over_a_commit<T>(
    s: ScanState<T>,
    from: u64,
    tree: T,
    new_generation: u64,
)
    requires
        s.tree_generation != from,
        later(s.generation, new_generation) < u64::MAX,
    ensures
        s.committed(from, tree, new_generation).tree == s.tree,
        s.committed(from, tree, new_generation).tree_generation == s.tree_generation,
        s.committed(from, tree, new_generation).begun().generation > new_generation,
{
}

/// An item that was moved.
#[derive(Clone, Debug)]
pub struct TrashedItem {
    pub id: u32,
    pub path: String,
    pub size: u64,
}

/// An item that was refused.
#[derive(Clone, Debug)]
pub struct FailedItem {
    pub id: u32,
    pub path: String,
    pub reason: String,
}

/// Announcement of a commit.
#[derive(Debug)]
pub struct CleanupCommitted {
    /// Generation of the tree to show.
    pub generation: u64,
    pub trashed: Vec<TrashedItem>,
    pub failed: Vec<FailedItem>,
    /// Root stats after the removal.
    pub stats: Option<Stats>,
    /// Where navigation landed.
    pub current_folder: u32,
    pub selected_node: Option<u32>,
}

/// What a removal left behind.
pub struct Removal {
    pub generation: u64,
    pub stats: Stats,
    pub current_folder: u32,
}

/// The figures of a tree after a removal.
pub open spec fn tells(m: Removal, t: Tree) -> bool {
    &&& m.generation == t.generation
    &&& m.stats.0 == t.at(0).logical
    &&& m.stats.1 == t.at(0).on_disk
    &&& m.stats.2 == t.files_below(0)
    &&& m.stats.3 == t.folders_below(0)
    &&& m.current_folder == 0
}

/// Copies a tree and takes the recycled paths out of the copy; `None` where no
/// path belongs to a node.
pub fn take_out(tree: &Tree, trashed: &[String]) -> (r: Option<(Tree, Removal)>)
    requires
        tree.wf(),
        tree.generation < u64::MAX,
    ensures
        match r {
            None => found_all(*tree, crate::scan::strings(trashed@)).len() == 0,
            Some((t, m)) => {
                &&& found_all(*tree, crate::scan::strings(trashed@)).len() > 0
                &&& t.wf()
                &&& t.finalized()
                &&& tells(m, t)
                &&& exists|copy: Tree|
                    #[trigger] surgery::same_tree(*tree, copy) && surgery::taken_out(
                        copy,
                        t,
                        found_all(*tree, crate::scan::strings(trashed@)),
                    )
            },
        },
{
    let ids = removed_ids(tree, trashed);
    if ids.len() == 0 {
        return None;
    }
    let mut owned = Tree::deep_from(tree);
    let ghost copy = owned;
    owned.remove_subtrees(ids.as_slice());
    proof {
        assert(surgery::same_tree(*tree, copy) && surgery::taken_out(copy, owned, ids@));
    }
    let stats = owned.root_stats();
    let current_folder = owned.fixup_navigation(0);
    let generation = owned.generation;
    Some((owned, Removal { generation, stats, current_folder }))
}

/// Announces a commit: the removal's figures, or those of the unchanged tree
/// where no node was removed.
pub fn announce(
    tree: &Tree,
    removal: Option<Removal>,
    trashed: Vec<TrashedItem>,
    failed: Vec<FailedItem>,
) -> (r: CleanupCommitted)
    requires
        tree.wf(),
    ensures
        r.trashed == trashed,
        r.failed == failed,
        r.selected_node is None,
        match removal {
            Some(m) => r.generation == m.generation && r.stats == Some(m.stats) && r.current_folder
                == m.current_folder,
            None => {
                &&& r.generation == tree.generation
                &&& r.current_folder == 0
                &&& r.stats matches Some(s) && s.0 == tree.at(0).logical && s.1 == tree.at(
                    0,
                ).on_disk && s.2 == tree.files_below(0) && s.3 == tree.folders_below(0)
            },
        },
{
    match removal {
        Some(m) => CleanupCommitted {
            generation: m.generation,
            trashed,
            failed,
            stats: Some(m.stats),
            current_folder: m.current_folder,
            selected_node: None,
        },
        None => CleanupCommitted {
            generation: tree.generation,
            trashed,
            failed,
            stats: Some(tree.root_stats()),
            current_folder: 0,
            selected_node: None,
        },
    }
}

// ---------------------------------------------------------------------------
// Laws
// ---------------------------------------------------------------------------

/// An item is staged as it is queued. It is refused for an empty path, or where
/// its node is protected or a cloud placeholder, and for nothing else: folders
/// are staged like files, and so is what is known by its path only.
pub proof fn only_flagged_items_are_refused(
    tree: &Tree,
    items: &[CommitItem],
    r: Vec<StagedPath>,
    i: int,
)
    requires
        tree.wf(),
        call_ensures(stage_items, (tree, items), r),
        0 <= i < items@.len(),
    ensures
        r@.len() == items@.len(),
        r@[i].id == items@[i].id,
        r@[i].path@ == items@[i].path@,
        r@[i].size == items@[i].size,
        items@[i].path@.len() == 0 ==> r@[i].protected,
        items@[i].id < tree.arena@.len() && tree.arena@[items@[i].id as int].protected
            ==> r@[i].protected,
        items@[i].id < tree.arena@.len() && tree.arena@[items@[i].id as int].cloud
            ==> r@[i].protected,
        items@[i].path@.len() > 0 && items@[i].id >= tree.arena@.len() ==> !r@[i].protected,
        items@[i].path@.len() > 0 && items@[i].id < tree.arena@.len()
            && !tree.arena@[items@[i].id as int].protected
            && !tree.arena@[items@[i].id as int].cloud ==> !r@[i].protected,
{
    assert(r@[i].stages(*tree, items@[i]));
}

/// A queued item, be it a file or a folder, that is on a fixed drive with room
/// in its bin is moved, unless its node is protected or a placeholder.
pub proof fn an_unflagged_item_is_moved(
    tree: &Tree,
    items: &[CommitItem],
    r: Vec<StagedPath>,
    i: int,
    policy: &BinPolicy,
    p: Preflight,
)
    requires
        tree.wf(),
        call_ensures(stage_items, (tree, items), r),
        0 <= i < items@.len(),
        items@[i].path@.len() > 0,
        items@[i].id < tree.arena@.len() ==> !tree.arena@[items@[i].id as int].protected
            && !tree.arena@[items@[i].id as int].cloud,
        !policy.nuke_on_delete,
        policy.max_capacity_mb is Some ==> items@[i].size <= policy.max_capacity_mb->0 * 1048576,
        call_ensures(preflight, (&r@[i], false, true, policy), p),
    ensures
        p is Move,
{
    assert(r@[i].stages(*tree, items@[i]));
}

/// What is done with a staged item: the first of the grounds against a move
/// that holds decides, and without any it is moved. A bin has room for as many
/// bytes as its capacity, a megabyte being 1048576 of them.
pub proof fn the_first_ground_decides(
    item: &StagedPath,
    missing: bool,
    fixed: bool,
    policy: &BinPolicy,
    p: Preflight,
)
    requires
        call_ensures(preflight, (item, missing, fixed, policy), p),
    ensures
        p is Protected <==> item.protected,
        p is Gone <==> !item.protected && missing,
        p is NotFixed <==> !item.protected && !missing && !fixed,
        p is BinDisabled <==> !item.protected && !missing && fixed && policy.nuke_on_delete,
        p is TooLarge <==> !item.protected && !missing && fixed && !policy.nuke_on_delete
            && policy.max_capacity_mb is Some && item.size > policy.max_capacity_mb->0 * 1048576,
        p is Move <==> !item.protected && !missing && fixed && !policy.nuke_on_delete && (
        policy.max_capacity_mb is None || item.size <= policy.max_capacity_mb->0 * 1048576),
{
}

/// A reason is given exactly for what stays where it is against the wish.
pub proof fn every_refusal_has_a_reason(p: Preflight, r: Option<String>)
    requires
        call_ensures(refusal, (p,), r),
    ensures
        r is None <==> p is Gone || p is Move,
        p is Protected ==> r->0@ == "This item is protected and stays where it is."@,
        p is NotFixed ==> r->0@ == "This drive has no Recycle Bin."@,
        p is BinDisabled ==> r->0@ == "The Recycle Bin of this drive is turned off."@,
        p is TooLarge ==> r->0@ == "This item is larger than the Recycle Bin."@,
{
}

/// One item more raises the bytes of the queue by its size; a sum that does not
/// fit in 64 bits is none.
pub proof fn the_queue_grows_by_its_items(
    items: &[CommitItem],
    more: &[CommitItem],
    a: Option<u64>,
    b: Option<u64>,
)
    requires
        more@.len() > 0,
        items@ == more@.drop_last(),
        call_ensures(queue_total, (items,), a),
        call_ensures(queue_total, (more,), b),
    ensures
        items@.len() == 0 ==> a == Some(0u64),
        a is None ==> b is None,
        a is Some ==> (b is Some <==> a->0 + more@.last().size <= u64::MAX),
        b is Some ==> a is Some && b->0 == a->0 + more@.last().size,
{
    queue_bytes_grow(more@, more@.len() as int);
    queue_bytes_grow(items@, items@.len() as int);
    assert(items@.take(items@.len() as int) =~= items@);
}

proof fn found_is_first(t: Tree, path: Seq<char>, n: int)
    requires
        t.wf(),
        0 <= n,
    ensures
        ({
            let r = found_from(t, path, n);
            ||| n <= r < t.size() && is_at(t, r, path) && forall|x: int|
                n <= x < r ==> !is_at(t, x, path)
            ||| r == 0 && forall|x: int| n <= x < t.size() ==> !is_at(t, x, path)
        }),
    decreases t.size() - n,
{
    if n < t.size() && !is_at(t, n, path) {
        found_is_first(t, path, n + 1);
    }
}

/// A path leads to the first live node below the scan root that has it; where
/// there is none, and for the empty path, to none.
pub proof fn a_path_leads_to_the_first_live_node(tree: &Tree, path: &str, r: u32)
    requires
        tree.wf(),
        call_ensures(tree_lookup_id, (tree, path), r),
    ensures
        r > 0 ==> {
            &&& r < tree.arena@.len()
            &&& !tree.arena@[r as int].removed
            &&& tree.path_of(r as int) == path@
            &&& forall|x: int|
                0 < x < r ==> tree.arena@[x].removed || #[trigger] tree.path_of(x) != path@
        },
        r == 0 && path@.len() > 0 ==> forall|x: int|
            0 < x < tree.arena@.len() ==> tree.arena@[x].removed || #[trigger] tree.path_of(x)
                != path@,
        path@.len() == 0 ==> r == 0,
{
    assert(tree.parent_wf(0));
    assert forall|x: int| 0 < x < tree.size() implies (is_at(*tree, x, path@) <==> !(
    tree.arena@[x].removed || #[trigger] tree.path_of(x) != path@)) by {
        assert(tree.parent_wf(x));
    }
    assert(!is_at(*tree, 0, path@));
    found_is_first(*tree, path@, 0);
}

proof fn found_all_members(t: Tree, list: Seq<Seq<char>>)
    requires
        t.wf(),
    ensures
        forall|k: int|
            0 <= k < found_all(t, list).len() ==> (#[trigger] found_all(t, list)[k]) > 0 && exists|
                i: int,
            |
                0 <= i < list.len() && found(t, #[trigger] list[i]) == found_all(t, list)[k],
        forall|i: int|
            0 <= i < list.len() && found(t, #[trigger] list[i]) > 0 ==> found_all(t, list).contains(
                found(t, list[i]) as u32,
            ),
    decreases list.len(),
{
    if list.len() > 0 {
        let less = list.drop_last();
        found_all_members(t, less);
        found_is_first(t, list.last(), 0);
        let rest = found_all(t, less);
        let whole = found_all(t, list);
        assert forall|k: int| 0 <= k < whole.len() implies (#[trigger] whole[k]) > 0 && exists|i: int|
            0 <= i < list.len() && found(t, #[trigger] list[i]) == whole[k] by {
            if k < rest.len() {
                assert(whole[k] == rest[k]);
                let i = choose|i: int|
                    0 <= i < less.len() && found(t, #[trigger] less[i]) == rest[k];
                assert(list[i] == less[i]);
            } else {
                assert(list[list.len() - 1] == list.last());
            }
        }
        assert forall|i: int| 0 <= i < list.len() && found(
            t,
            #[trigger] list[i],
        ) > 0 implies whole.contains(found(t, list[i]) as u32) by {
            if i < less.len() {
                assert(less[i] == list[i]);
                let q = rest.index_of(found(t, list[i]) as u32);
                assert(whole[q] == found(t, list[i]) as u32);
            } else {
                assert(whole[rest.len() as int] == found(t, list[i]) as u32);
            }
        }
    }
}

/// Every recycled path that a live node below the scan root has stands for one
/// of the nodes found, and every node found has one of the paths.
pub proof fn recycled_paths_are_found(tree: &Tree, trashed: &[String], r: Vec<u32>)
    requires
        tree.wf(),
        call_ensures(removed_ids, (tree, trashed), r),
    ensures
        forall|k: int|
            0 <= k < r@.len() ==> {
                &&& 0 < #[trigger] r@[k] < tree.arena@.len()
                &&& !tree.arena@[r@[k] as int].removed
                &&& exists|i: int|
                    0 <= i < trashed@.len() && tree.path_of(r@[k] as int) == (
                    #[trigger] trashed@[i])@
            },
        forall|x: int, i: int|
            0 < x < tree.arena@.len() && !tree.arena@[x].removed && 0 <= i < trashed@.len()
                && #[trigger] tree.path_of(x) == (#[trigger] trashed@[i])@ && trashed@[i]@.len() > 0
                ==> exists|k: int|
                0 <= k < r@.len() && tree.path_of(#[trigger] r@[k] as int) == trashed@[i]@,
{
    let list = crate::scan::strings(trashed@);
    found_all_members(*tree, list);
    assert(tree.parent_wf(0));
    assert forall|k: int| 0 <= k < r@.len() implies {
        &&& 0 < #[trigger] r@[k] < tree.arena@.len()
        &&& !tree.arena@[r@[k] as int].removed
        &&& exists|i: int|
            0 <= i < trashed@.len() && tree.path_of(r@[k] as int) == (#[trigger] trashed@[i])@
    } by {
        let i = choose|i: int|
            0 <= i < list.len() && found(*tree, #[trigger] list[i]) == r@[k] && r@[k] > 0;
        found_is_first(*tree, list[i], 0);
        assert(list[i] == trashed@[i]@);
    }
    assert forall|x: int, i: int|
        0 < x < tree.arena@.len() && !tree.arena@[x].removed && 0 <= i < trashed@.len()
            && #[trigger] tree.path_of(x) == (#[trigger] trashed@[i])@ && trashed@[i]@.len()
            > 0 implies exists|k: int|
        0 <= k < r@.len() && tree.path_of(#[trigger] r@[k] as int) == trashed@[i]@ by {
        assert(list[i] == trashed@[i]@);
        assert(tree.parent_wf(x));
        assert(is_at(*tree, x, list[i]));
        found_is_first(*tree, list[i], 0);
        let f = found(*tree, list[i]);
        assert(f > 0);
        assert(r@.contains(f as u32));
        let k = r@.index_of(f as u32);
        assert(r@[k] == f as u32);
    }
}

/// Taking recycled paths out marks every node below a live node with such a
/// path, and no other; the copy is one generation later. Without such a node
/// nothing is made.
pub proof fn recycled_nodes_are_taken_out(
    tree: &Tree,
    trashed: &[String],
    r: Option<(Tree, Removal)>,
    x: int,
)
    requires
        tree.wf(),
        tree.generation < u64::MAX,
        forall|i: int| 0 <= i < trashed@.len() ==> (#[trigger] trashed@[i])@.len() > 0,
        forall|a: int, b: int|
            0 < a < b < tree.arena@.len() ==> #[trigger] tree.path_of(a) != #[trigger] tree.path_of(
                b,
            ),
        call_ensures(take_out, (tree, trashed), r),
        0 <= x < tree.arena@.len(),
    ensures
        r is None <==> forall|y: int, i: int|
            0 < y < tree.arena@.len() && !tree.arena@[y].removed && 0 <= i < trashed@.len()
                ==> #[trigger] tree.path_of(y) != (#[trigger] trashed@[i])@,
        r is Some ==> {
            &&& (r->0).0.generation == tree.generation + 1
            &&& (r->0).0.arena@.len() == tree.arena@.len()
            &&& (r->0).0.arena@[x].removed <==> tree.arena@[x].removed || exists|y: int, i: int|
                0 < y < tree.arena@.len() && !tree.arena@[y].removed && 0 <= i < trashed@.len()
                    && #[trigger] tree.path_of(y) == (#[trigger] trashed@[i])@ && tree.under(x, y)
            &&& (r->0).1.generation == (r->0).0.generation
            &&& (r->0).1.stats.0 == (r->0).0.arena@[0].logical
            &&& (r->0).1.stats.1 == (r->0).0.arena@[0].on_disk
            &&& (r->0).1.current_folder == 0
        },
{
    let list = crate::scan::strings(trashed@);
    let ids = found_all(*tree, list);
    found_all_members(*tree, list);
    assert(tree.parent_wf(0));
    assert forall|y: int, i: int|
        0 < y < tree.arena@.len() && !tree.arena@[y].removed && 0 <= i < trashed@.len()
            && #[trigger] tree.path_of(y) == (#[trigger] trashed@[i])@ implies ids.contains(
        y as u32,
    ) by {
        assert(list[i] == trashed@[i]@);
        assert(tree.parent_wf(y));
        assert(is_at(*tree, y, list[i]));
        found_is_first(*tree, list[i], 0);
        let f = found(*tree, list[i]);
        assert(f == y) by {
            if f < y {
                assert(tree.path_of(f) != tree.path_of(y));
            } else if f > y {
                assert(tree.path_of(y) != tree.path_of(f));
            }
        }
    }
    assert forall|k: int| 0 <= k < ids.len() implies {
        &&& 0 < #[trigger] ids[k] < tree.arena@.len()
        &&& !tree.arena@[ids[k] as int].removed
        &&& exists|i: int|
            0 <= i < trashed@.len() && tree.path_of(ids[k] as int) == (#[trigger] trashed@[i])@
    } by {
        let i = choose|i: int|
            0 <= i < list.len() && found(*tree, #[trigger] list[i]) == ids[k] && ids[k] > 0;
        found_is_first(*tree, list[i], 0);
        assert(list[i] == trashed@[i]@);
    }
    if ids.len() > 0 {
        let y = ids[0] as int;
        let i = choose|i: int|
            0 <= i < trashed@.len() && tree.path_of(y) == (#[trigger] trashed@[i])@;
        assert(tree.path_of(y) == trashed@[i]@);
    }
    if r is Some {
        let t = (r->0).0;
        let copy = choose|copy: Tree|
            #[trigger] surgery::same_tree(*tree, copy) && surgery::taken_out(copy, t, ids);
        assert(copy.at(x) == tree.at(x));
        assert(t.at(x).removed == (tree.at(x).removed || copy.below_any(x, ids)));
        assert forall|a: int, b: int| copy.under(a, b) == #[trigger] tree.under(a, b) by {
            surgery::same_tree_under(*tree, copy, a, b);
        }
        if copy.below_any(x, ids) {
            let k = choose|k: int| 0 <= k < ids.len() && #[trigger] copy.under(x, ids[k] as int);
            let y = ids[k] as int;
            assert(tree.under(x, y));
            let i = choose|i: int|
                0 <= i < trashed@.len() && tree.path_of(y) == (#[trigger] trashed@[i])@;
            assert(tree.path_of(y) == trashed@[i]@);
        }
        if exists|y: int, i: int|
            0 < y < tree.arena@.len() && !tree.arena@[y].removed && 0 <= i < trashed@.len()
                && #[trigger] tree.path_of(y) == (#[trigger] trashed@[i])@ && tree.under(x, y) {
            let (y, i) = choose|y: int, i: int|
                0 < y < tree.arena@.len() && !tree.arena@[y].removed && 0 <= i < trashed@.len()
                    && #[trigger] tree.path_of(y) == (#[trigger] trashed@[i])@ && tree.under(x, y);
            let k = ids.index_of(y as u32);
            assert(ids[k] == y as u32);
            assert(copy.under(x, ids[k] as int));
        }
    }
}

/// A commit tells what was moved and what was not. Where nodes left the tree it
/// tells the figures after that, else those of the tree as it is, from its root.
pub proof fn a_commit_tells_the_tree_it_left(
    tree: &Tree,
    removal: Option<Removal>,
    trashed: Vec<TrashedItem>,
    failed: Vec<FailedItem>,
    r: CleanupCommitted,
)
    requires
        tree.wf(),
        call_ensures(announce, (tree, removal, trashed, failed), r),
    ensures
        r.trashed@ == trashed@,
        r.failed@ == failed@,
        r.selected_node is None,
        removal matches Some(m) ==> r.generation == m.generation && r.stats == Some(m.stats)
            && r.current_folder == m.current_folder,
        removal is None ==> r.generation == tree.generation && r.current_folder == 0,
        removal is None ==> (r.stats matches Some(s) && s.0 == tree.arena@[0].logical && s.1
            == tree.arena@[0].on_disk),
{
}

/// A node has a path where its own path reads the same.
pub proof fn a_path_matches_where_it_reads_the_same(
    tree: &Tree,
    idx: u32,
    path: &str,
    r: bool,
    own: String,
)
    requires
        tree.wf(),
        call_ensures(path_matches, (tree, idx, path), r),
        call_ensures(Tree::node_path, (tree, idx), own),
    ensures
        r <==> own@ == path@,
{
}

} // verus!
