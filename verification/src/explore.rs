//! The datasets of the explorer: folder grid, rankings, list, inspector and
//! breadcrumb. Every one is computed from a tree snapshot alone.
use crate::age;
use crate::age::{AgeScale, AgeTotals, AgedFile, MonthHeatmap};
use crate::category::FileCategory;
use crate::rollup;
use crate::seqs;
use crate::shares;
use crate::shares::Share;
use crate::text;
use crate::tree::{Tree, NO_PARENT};
use vstd::prelude::*;

verus! {

/// Most files in the folder grid.
pub const FILES_CAP: usize = 600;

/// Most children per level of the list.
pub const LIST_CAP: usize = 500;

/// Most rows of a ranking.
pub const TOP_CAP: usize = 200;

/// Most rows of the big-and-untouched list.
pub const BIG_CAP: usize = 500;

/// Most rows of "largest inside".
pub const LARGEST_CAP: usize = 10;

/// Category dots on a folder card.
pub const DOTS: usize = 3;

/// Colour of a folder row in a ranking.
pub const FOLDER_COLOR: u32 = 0x93C5FD;

// ---------------------------------------------------------------------------
// Name filter
// ---------------------------------------------------------------------------

/// What a name filter looks for: the trimmed text without regard to ASCII case.
pub open spec fn needle_of(filter: Seq<char>) -> Seq<char> {
    text::lower(text::trim(filter))
}

/// The name holds the needle; an empty needle is in every name.
pub open spec fn name_passes(name: Seq<char>, needle: Seq<char>) -> bool {
    needle.len() == 0 || text::has_sub(text::lower(name), needle)
}

/// A live node whose name holds the needle.
pub open spec fn visible(t: Tree, needle: Seq<char>) -> spec_fn(u32) -> bool {
    |c: u32| !t.at(c as int).removed && name_passes(t.shown(c as int), needle)
}

/// What a name filter looks for.
pub(crate) fn make_needle(filter: &str) -> (r: Vec<char>)
    ensures
        r@ == needle_of(filter@),
{
    let cs = text::chars_of(filter);
    let trimmed = text::trim_chars(cs.as_slice());
    text::to_lower(trimmed.as_slice())
}

/// Whether a name holds the needle.
pub(crate) fn passes(name: &str, needle: &Vec<char>) -> (r: bool)
    ensures
        r == name_passes(name@, needle@),
{
    if needle.len() == 0 {
        return true;
    }
    let cs = text::chars_of(name);
    let folded = text::to_lower(cs.as_slice());
    text::contains_chars(folded.as_slice(), needle.as_slice())
}

// ---------------------------------------------------------------------------
// Folder grid
// ---------------------------------------------------------------------------

/// One category dot on a folder card.
#[derive(Clone, Debug)]
pub struct CategoryDot {
    /// `0xRRGGBB`.
    pub color: u32,
    /// Category label.
    pub label: String,
    /// Bytes in that category.
    pub size: u64,
}

/// One folder card.
#[derive(Clone, Debug)]
pub struct FolderCard {
    pub id: u32,
    pub name: String,
    /// On-disk size.
    pub size: u64,
    /// Descendant files and folders.
    pub item_count: u64,
    pub file_count: u64,
    pub folder_count: u64,
    /// Up to 3 category dots.
    pub categories: Vec<CategoryDot>,
    /// Most recent descendant modification (0 unknown).
    pub modified: i64,
    pub protected: bool,
}

/// One file tile.
#[derive(Clone, Debug)]
pub struct FileTile {
    pub id: u32,
    pub name: String,
    pub size: u64,
    pub category: String,
    /// `0xRRGGBB`.
    pub category_color: u32,
    /// Last modified (0 unknown).
    pub modified: i64,
    pub protected: bool,
    pub cloud: bool,
}

/// The folder grid.
#[derive(Clone, Debug)]
pub struct FolderView {
    pub generation: u64,
    pub node: u32,
    pub name: String,
    /// Folder on-disk size.
    pub size: u64,
    pub file_count: u64,
    pub folder_count: u64,
    pub folders: Vec<FolderCard>,
    pub files: Vec<FileTile>,
    /// True when the cap cut the file grid short.
    pub files_capped: bool,
}

impl Tree {
    /// Files below a folder; none below a file.
    pub open spec fn files_below(&self, id: int) -> u64 {
        if self.at(id).dir {
            self.extra(id).file_count
        } else {
            0
        }
    }

    /// Folders below a folder; none below a file.
    pub open spec fn folders_below(&self, id: int) -> u64 {
        if self.at(id).dir {
            self.extra(id).folder_count
        } else {
            0
        }
    }

    /// Files and folders below a node.
    pub(crate) fn counts(&self, id: u32) -> (r: (u64, u64))
        requires
            self.wf(),
            self.has(id as int),
        ensures
            r.0 == self.files_below(id as int),
            r.1 == self.folders_below(id as int),
    {
        let n = self.arena[id as usize];
        if n.dir {
            assert(self.at(id as int).dir);
            let e = self.dir_extras[n.dir_index as usize];
            (e.file_count, e.folder_count)
        } else {
            (0, 0)
        }
    }
}

/// The dots show the largest categories of a folder.
pub open spec fn dots_of(d: Seq<CategoryDot>, t: Tree, id: int) -> bool {
    let top = shares::first_n(t.category_ranking(id), DOTS as int);
    &&& d.len() == top.len()
    &&& forall|i: int|
        0 <= i < d.len() ==> {
            &&& (#[trigger] d[i]).size == top[i].0
            &&& d[i].color == t.palette.styles@[top[i].1 as int].color
            &&& d[i].label@ == t.palette.styles@[top[i].1 as int].label@
        }
}

impl FolderCard {
    /// The card of a folder.
    pub open spec fn shows(&self, t: Tree, id: u32) -> bool {
        let n = t.at(id as int);
        let e = t.extra(id as int);
        &&& self.id == id
        &&& self.name@ == t.shown(id as int)
        &&& self.size == n.on_disk
        &&& self.file_count == e.file_count
        &&& self.folder_count == e.folder_count
        &&& self.item_count == rollup::capped(e.file_count + e.folder_count)
        &&& self.modified == e.max_descendant_modified
        &&& self.protected == n.protected
        &&& dots_of(self.categories@, t, id as int)
    }
}

impl FileTile {
    /// The tile of a file.
    pub open spec fn shows(&self, t: Tree, id: u32) -> bool {
        let n = t.at(id as int);
        &&& self.id == id
        &&& self.name@ == t.shown(id as int)
        &&& self.size == n.on_disk
        &&& self.category@ == t.palette.label_of(n.kind)
        &&& self.category_color == t.palette.color_of(n.kind)
        &&& self.modified == n.modified
        &&& self.protected == n.protected
        &&& self.cloud == n.cloud
    }
}

/// A visible folder.
pub open spec fn visible_dir(t: Tree, needle: Seq<char>) -> spec_fn(u32) -> bool {
    |c: u32| visible(t, needle)(c) && t.at(c as int).dir
}

/// A visible file.
pub open spec fn visible_file(t: Tree, needle: Seq<char>) -> spec_fn(u32) -> bool {
    |c: u32| visible(t, needle)(c) && !t.at(c as int).dir
}

/// The cards show the given folders in order.
pub open spec fn cards(f: Seq<FolderCard>, t: Tree, ids: Seq<u32>) -> bool {
    f.len() == ids.len() && forall|i: int| 0 <= i < f.len() ==> (#[trigger] f[i]).shows(t, ids[i])
}

/// The tiles show the given files in order.
pub open spec fn tiles(f: Seq<FileTile>, t: Tree, ids: Seq<u32>) -> bool {
    f.len() == ids.len() && forall|i: int| 0 <= i < f.len() ==> (#[trigger] f[i]).shows(t, ids[i])
}

/// The category dots of a folder.
fn make_dots(tree: &Tree, id: u32) -> (r: Vec<CategoryDot>)
    requires
        tree.wf(),
    ensures
        dots_of(r@, *tree, id as int),
{
    let top = tree.top_categories(id, DOTS);
    let ghost full = tree.category_ranking(id as int);
    let mut out: Vec<CategoryDot> = Vec::new();
    let mut i: usize = 0;
    while i < top.len()
        invariant
            tree.wf(),
            i <= top.len(),
            top@.len() <= full.len(),
            forall|j: int|
                0 <= j < top@.len() ==> (#[trigger] top@[j]).0.index() == full[j].1 && top@[j].1
                    == full[j].0,
            out@.len() == i,
            forall|j: int|
                0 <= j < i ==> {
                    &&& (#[trigger] out@[j]).size == full[j].0
                    &&& out@[j].color == tree.palette.styles@[full[j].1 as int].color
                    &&& out@[j].label@ == tree.palette.styles@[full[j].1 as int].label@
                },
        decreases top.len() - i,
    {
        let (c, size): (FileCategory, u64) = top[i];
        assert(top@[i as int].0.index() == full[i as int].1);
        out.push(CategoryDot { color: tree.palette.color(c), label: tree.palette.label(c), size });
        i += 1;
    }
    out
}

/// The card of a folder.
fn make_card(tree: &Tree, id: u32, name: String) -> (r: FolderCard)
    requires
        tree.wf(),
        tree.has(id as int),
        tree.at(id as int).dir,
        name@ == tree.shown(id as int),
    ensures
        r.shows(*tree, id),
{
    let n = tree.arena[id as usize];
    let e = tree.dir_extras[n.dir_index as usize];
    let categories = make_dots(tree, id);
    FolderCard {
        id,
        name,
        size: n.on_disk,
        item_count: e.file_count.saturating_add(e.folder_count),
        file_count: e.file_count,
        folder_count: e.folder_count,
        categories,
        modified: e.max_descendant_modified,
        protected: n.protected,
    }
}

/// The tile of a file.
fn make_tile(tree: &Tree, id: u32, name: String) -> (r: FileTile)
    requires
        tree.wf(),
        tree.has(id as int),
        name@ == tree.shown(id as int),
    ensures
        r.shows(*tree, id),
{
    let n = tree.arena[id as usize];
    FileTile {
        id,
        name,
        size: n.on_disk,
        category: tree.palette.label(n.kind),
        category_color: tree.palette.color(n.kind),
        modified: n.modified,
        protected: n.protected,
        cloud: n.cloud,
    }
}

/// Computes the folder grid: visible folders, then visible files up to the cap,
/// both in child order.
pub fn compute_folder_view(tree: &Tree, node: u32, filter: &str) -> (v: FolderView)
    requires
        tree.wf(),
        tree.has(node as int),
    ensures
        v.generation == tree.generation,
        v.node == node,
        v.name@ == tree.shown(node as int),
        v.size == tree.at(node as int).on_disk,
        v.file_count == tree.files_below(node as int),
        v.folder_count == tree.folders_below(node as int),
        cards(
            v.folders@,
            *tree,
            tree.kids_of(node as int).filter(visible_dir(*tree, needle_of(filter@))),
        ),
        tiles(
            v.files@,
            *tree,
            shares::first_n(
                tree.kids_of(node as int).filter(visible_file(*tree, needle_of(filter@))),
                FILES_CAP as int,
            ),
        ),
        v.files_capped == (tree.kids_of(node as int).filter(
            visible_file(*tree, needle_of(filter@)),
        ).len() > FILES_CAP),
{
    let needle = make_needle(filter);
    let ghost pd = visible_dir(*tree, needle@);
    let ghost pf = visible_file(*tree, needle@);
    let mut folders: Vec<FolderCard> = Vec::new();
    let mut files: Vec<FileTile> = Vec::new();
    let mut files_capped = false;
    let list = tree.children_sorted(node);
    let mut i: usize = 0;
    proof {
        assert(tree.kids_wf(node as int));
        seqs::filter_nothing::<u32>(pd);
        seqs::filter_nothing::<u32>(pf);
        assert(list@.take(0) =~= Seq::empty());
    }
    while i < list.len()
        invariant
            tree.wf(),
            tree.has(node as int),
            tree.kids_wf(node as int),
            list@ == tree.kids_of(node as int),
            pd == visible_dir(*tree, needle@),
            pf == visible_file(*tree, needle@),
            i <= list.len(),
            cards(folders@, *tree, list@.take(i as int).filter(pd)),
            tiles(
                files@,
                *tree,
                shares::first_n(list@.take(i as int).filter(pf), FILES_CAP as int),
            ),
            files_capped == (list@.take(i as int).filter(pf).len() > FILES_CAP),
        decreases list.len() - i,
    {
        let child: u32 = list[i];
        proof {
            seqs::filter_step(list@, i as int, pd);
            seqs::filter_step(list@, i as int, pf);
            assert(tree.kids_of(node as int)[i as int] == child);
        }
        let n = tree.arena[child as usize];
        if !n.removed {
            let name = tree.name(child);
            if passes(name.as_str(), &needle) {
                assert(visible(*tree, needle@)(child));
                if n.dir {
                    let card = make_card(tree, child, name);
                    folders.push(card);
                } else if files.len() < FILES_CAP {
                    let tile = make_tile(tree, child, name);
                    files.push(tile);
                } else {
                    files_capped = true;
                    assert(shares::first_n(list@.take(i + 1).filter(pf), FILES_CAP as int)
                        =~= shares::first_n(list@.take(i as int).filter(pf), FILES_CAP as int));
                }
            }
        }
        i += 1;
    }
    assert(list@.take(i as int) =~= list@);
    let (file_count, folder_count) = tree.counts(node);
    FolderView {
        generation: tree.generation,
        node,
        name: tree.name(node),
        size: tree.arena[node as usize].on_disk,
        file_count,
        folder_count,
        folders,
        files,
        files_capped,
    }
}

/// In a rolled-up tree every selection of a folder's children stands largest
/// first.
pub proof fn children_stand_largest_first(t: Tree, id: int, p: spec_fn(u32) -> bool)
    requires
        t.wf(),
        t.finalized(),
        t.has(id),
        t.at(id).dir,
    ensures
        forall|i: int, j: int|
            0 <= i < j < t.kids_of(id).filter(p).len() ==> t.at(
                #[trigger] t.kids_of(id).filter(p)[i] as int,
            ).on_disk >= t.at(#[trigger] t.kids_of(id).filter(p)[j] as int).on_disk,
{
    assert(t.rolled(id));
    let k = t.kids_of(id);
    assert forall|i: int, j: int| 0 <= i < j < k.len() implies t.at(
        #[trigger] k[i] as int,
    ).on_disk >= t.at(#[trigger] k[j] as int).on_disk by {
        let s = t.sized(k);
        assert(crate::order::before(s[i], s[j]));
    }
    filter_keeps_order(t, k, p);
}

/// A selection of nodes that stand largest first stands largest first.
pub proof fn filter_keeps_order(t: Tree, k: Seq<u32>, p: spec_fn(u32) -> bool)
    requires
        forall|i: int, j: int|
            0 <= i < j < k.len() ==> t.at(#[trigger] k[i] as int).on_disk >= t.at(
                #[trigger] k[j] as int,
            ).on_disk,
    ensures
        forall|i: int, j: int|
            0 <= i < j < k.filter(p).len() ==> t.at(#[trigger] k.filter(p)[i] as int).on_disk
                >= t.at(#[trigger] k.filter(p)[j] as int).on_disk,
    decreases k.len(),
{
    reveal(Seq::filter);
    if k.len() > 0 {
        let rest = k.drop_last();
        assert forall|i: int, j: int| 0 <= i < j < rest.len() implies t.at(
            #[trigger] rest[i] as int,
        ).on_disk >= t.at(#[trigger] rest[j] as int).on_disk by {
            assert(rest[i] == k[i] && rest[j] == k[j]);
        }
        filter_keeps_order(t, rest, p);
        seqs::filter_members(rest, p);
        let f = rest.filter(p);
        assert forall|i: int| 0 <= i < f.len() implies t.at(#[trigger] f[i] as int).on_disk >= t.at(
            k.last() as int,
        ).on_disk by {
            assert(f.contains(f[i]));
            let q = rest.index_of(f[i]);
            assert(k[q] == f[i]);
            assert(k[k.len() - 1] == k.last());
        }
    }
}

// ---------------------------------------------------------------------------
// Inspector
// ---------------------------------------------------------------------------

/// One "largest inside" row.
#[derive(Clone, Debug)]
pub struct LargestItem {
    pub id: u32,
    pub name: String,
    pub size: u64,
    pub is_dir: bool,
}

/// The inspector's dataset.
#[derive(Clone, Debug)]
pub struct NodeDetails {
    pub id: u32,
    pub name: String,
    pub is_dir: bool,
    /// "Disk", "Folder" or the category label.
    pub kind: String,
    /// `0xRRGGBB` of the category, or of a folder's dominant one.
    pub kind_color: u32,
    /// Full display path.
    pub path: String,
    /// Size on disk.
    pub size: u64,
    /// Part of the scan.
    pub share_of_scan: Share,
    /// Logical size.
    pub logical: u64,
    /// On-disk bytes beyond the logical size.
    pub overhead: u64,
    /// Logical bytes beyond the on-disk size.
    pub savings: u64,
    /// Descendant counts (folders only).
    pub files: u64,
    pub folders: u64,
    /// Part of the containing folder.
    pub of_parent: Share,
    /// Unix seconds (0 unknown).
    pub modified: i64,
    pub created: i64,
    pub is_cloud: bool,
    pub is_protected: bool,
    /// The largest children.
    pub largest: Vec<LargestItem>,
}

impl LargestItem {
    /// The row of a child.
    pub open spec fn shows(&self, t: Tree, id: u32) -> bool {
        &&& self.id == id
        &&& self.name@ == t.shown(id as int)
        &&& self.size == t.at(id as int).on_disk
        &&& self.is_dir == t.at(id as int).dir
    }
}

/// Not removed.
pub open spec fn live(t: Tree) -> spec_fn(u32) -> bool {
    |c: u32| !t.at(c as int).removed
}

/// A path shaped like a drive: an ASCII letter, a colon, and at most one more
/// byte.
pub open spec fn is_drive_path(path: Seq<char>) -> bool {
    let b = vstd::utf8::encode_utf8(path);
    &&& b.len() <= 3
    &&& b.len() >= 2
    &&& (0x41 <= b[0] <= 0x5A || 0x61 <= b[0] <= 0x7A)
    &&& b[1] == 0x3A
}

/// Whether a path is shaped like a drive.
pub fn drive_path(path: &str) -> (r: bool)
    ensures
        r == is_drive_path(path@),
{
    let b = path.as_bytes();
    b.len() <= 3 && b.len() >= 2 && ((0x41 <= b[0] && b[0] <= 0x5A) || (0x61 <= b[0] && b[0]
        <= 0x7A)) && b[1] == 0x3A
}

/// What the inspector calls a node.
pub open spec fn kind_of(t: Tree, id: int) -> Seq<char> {
    if t.at(id).dir && is_drive_path(t.path_of(id)) {
        "Disk"@
    } else if t.at(id).dir {
        "Folder"@
    } else {
        t.palette.label_of(t.at(id).kind)
    }
}

/// The index of the category that colours a node.
pub open spec fn colour_category(t: Tree, id: int) -> int {
    if t.at(id).dir {
        t.dominant(id)
    } else {
        t.at(id).kind.index()
    }
}

/// The rows show the given children in order.
pub open spec fn largest_rows(r: Seq<LargestItem>, t: Tree, ids: Seq<u32>) -> bool {
    r.len() == ids.len() && forall|i: int| 0 <= i < r.len() ==> (#[trigger] r[i]).shows(t, ids[i])
}

/// The first live children.
fn make_largest(tree: &Tree, id: u32) -> (r: Vec<LargestItem>)
    requires
        tree.wf(),
        tree.has(id as int),
    ensures
        largest_rows(
            r@,
            *tree,
            shares::first_n(tree.kids_of(id as int).filter(live(*tree)), LARGEST_CAP as int),
        ),
{
    let ghost p = live(*tree);
    let list = tree.children_sorted(id);
    let mut out: Vec<LargestItem> = Vec::new();
    let mut i: usize = 0;
    proof {
        assert(tree.kids_wf(id as int));
        seqs::filter_nothing::<u32>(p);
        assert(list@.take(0) =~= Seq::empty());
    }
    while i < list.len() && out.len() < LARGEST_CAP
        invariant
            tree.wf(),
            tree.has(id as int),
            tree.kids_wf(id as int),
            list@ == tree.kids_of(id as int),
            p == live(*tree),
            i <= list.len(),
            out@.len() <= LARGEST_CAP,
            largest_rows(out@, *tree, list@.take(i as int).filter(p)),
        decreases list.len() - i,
    {
        let c: u32 = list[i];
        proof {
            seqs::filter_step(list@, i as int, p);
            assert(tree.kids_of(id as int)[i as int] == c);
        }
        let n = tree.arena[c as usize];
        if !n.removed {
            out.push(LargestItem { id: c, name: tree.name(c), size: n.on_disk, is_dir: n.dir });
        }
        i += 1;
    }
    proof {
        seqs::filter_prefix(list@, i as int, p);
        if i == list@.len() {
            assert(list@.take(i as int) =~= list@);
        }
    }
    out
}

/// Computes the inspector's dataset.
pub fn compute_details(tree: &Tree, id: u32) -> (d: NodeDetails)
    requires
        tree.wf(),
        tree.has(id as int),
    ensures
        d.id == id,
        d.name@ == tree.shown(id as int),
        d.is_dir == tree.at(id as int).dir,
        d.kind@ == kind_of(*tree, id as int),
        d.kind_color == tree.palette.styles@[colour_category(*tree, id as int)].color,
        d.path@ == tree.path_of(id as int),
        d.size == tree.at(id as int).on_disk,
        d.share_of_scan == (Share { part: tree.at(id as int).on_disk, whole: tree.at(0).on_disk }),
        d.logical == tree.at(id as int).logical,
        d.overhead == (if d.size > d.logical {
            d.size - d.logical
        } else {
            0
        }),
        d.savings == (if d.logical > d.size {
            d.logical - d.size
        } else {
            0
        }),
        d.files == tree.files_below(id as int),
        d.folders == tree.folders_below(id as int),
        d.of_parent == tree.of_parent(id as int),
        d.modified == tree.at(id as int).modified,
        d.created == tree.at(id as int).created,
        d.is_cloud == tree.at(id as int).cloud,
        d.is_protected == tree.at(id as int).protected,
        largest_rows(
            d.largest@,
            *tree,
            shares::first_n(tree.kids_of(id as int).filter(live(*tree)), LARGEST_CAP as int),
        ),
{
    let n = tree.arena[id as usize];
    let root_total = tree.arena[0].on_disk;
    let (files, folders) = tree.counts(id);
    let cat = if n.dir {
        tree.dominant_category(id)
    } else {
        n.kind
    };
    let largest = make_largest(tree, id);
    let path = tree.node_path(id);
    let kind = if n.dir && drive_path(path.as_str()) {
        "Disk".to_owned()
    } else if n.dir {
        "Folder".to_owned()
    } else {
        tree.palette.label(cat)
    };
    NodeDetails {
        id,
        name: tree.name(id),
        is_dir: n.dir,
        kind,
        kind_color: tree.palette.color(cat),
        path,
        size: n.on_disk,
        share_of_scan: Share { part: n.on_disk, whole: root_total },
        logical: n.logical,
        overhead: tree.cluster_overhead(id),
        savings: tree.compression_savings(id),
        files,
        folders,
        of_parent: tree.share_of_parent(id),
        modified: n.modified,
        created: n.created,
        is_cloud: n.cloud,
        is_protected: n.protected,
        largest,
    }
}

// ---------------------------------------------------------------------------
// List
// ---------------------------------------------------------------------------

/// One row of the list.
#[derive(Clone, Debug)]
pub struct ListRow {
    pub id: u32,
    pub name: String,
    pub is_dir: bool,
    /// Only non-empty folders can be unfolded.
    pub has_children: bool,
    /// Part of the containing folder.
    pub share: Share,
    pub size: u64,
    /// "Folder" or the category label.
    pub category: String,
    /// Number of direct children (0 for files).
    pub items: u32,
    /// `0xRRGGBB`.
    pub color: u32,
    pub protected: bool,
    pub cloud: bool,
    pub modified: i64,
}

impl ListRow {
    /// The row of a child.
    pub open spec fn shows(&self, t: Tree, id: u32) -> bool {
        let n = t.at(id as int);
        &&& self.id == id
        &&& self.name@ == t.shown(id as int)
        &&& self.is_dir == n.dir
        &&& self.has_children == (n.dir && t.kids_of(id as int).len() > 0)
        &&& self.share == t.of_parent(id as int)
        &&& self.size == n.on_disk
        &&& self.category@ == (if n.dir {
            "Folder"@
        } else {
            t.palette.label_of(n.kind)
        })
        &&& self.items == (if n.dir {
            t.kids_of(id as int).len() as int
        } else {
            0
        })
        &&& self.color == t.palette.styles@[colour_category(t, id as int)].color
        &&& self.protected == n.protected
        &&& self.cloud == n.cloud
        &&& self.modified == n.modified
    }
}

/// The rows show the given children in order.
pub open spec fn list_rows(r: Seq<ListRow>, t: Tree, ids: Seq<u32>) -> bool {
    r.len() == ids.len() && forall|i: int| 0 <= i < r.len() ==> (#[trigger] r[i]).shows(t, ids[i])
}

/// The row of a child.
fn make_list_row(tree: &Tree, id: u32, name: String) -> (r: ListRow)
    requires
        tree.wf(),
        tree.has(id as int),
        name@ == tree.shown(id as int),
    ensures
        r.shows(*tree, id),
{
    assert(tree.kids_wf(id as int));
    let n = tree.arena[id as usize];
    let cat = if n.dir {
        tree.dominant_category(id)
    } else {
        n.kind
    };
    ListRow {
        id,
        name,
        is_dir: n.dir,
        has_children: n.dir && n.child_count > 0,
        share: tree.share_of_parent(id),
        size: n.on_disk,
        category: if n.dir {
            "Folder".to_owned()
        } else {
            tree.palette.label(cat)
        },
        items: if n.dir {
            n.child_count
        } else {
            0
        },
        color: tree.palette.color(cat),
        protected: n.protected,
        cloud: n.cloud,
        modified: n.modified,
    }
}

/// Computes one level of the list: visible children up to the cap.
pub fn compute_list(tree: &Tree, node: u32, filter: &str) -> (rows: Vec<ListRow>)
    requires
        tree.wf(),
    ensures
        list_rows(
            rows@,
            *tree,
            shares::first_n(
                tree.kids_of(node as int).filter(visible(*tree, needle_of(filter@))),
                LIST_CAP as int,
            ),
        ),
{
    let needle = make_needle(filter);
    let ghost p = visible(*tree, needle@);
    let list = tree.children_sorted(node);
    let mut rows: Vec<ListRow> = Vec::new();
    let mut i: usize = 0;
    proof {
        if tree.has(node as int) {
            assert(tree.kids_wf(node as int));
        }
        seqs::filter_nothing::<u32>(p);
        assert(list@.take(0) =~= Seq::empty());
    }
    while i < list.len() && rows.len() < LIST_CAP
        invariant
            tree.wf(),
            tree.has(node as int) ==> tree.kids_wf(node as int),
            list@ == tree.kids_of(node as int),
            p == visible(*tree, needle@),
            i <= list.len(),
            rows@.len() <= LIST_CAP,
            list_rows(rows@, *tree, list@.take(i as int).filter(p)),
        decreases list.len() - i,
    {
        let child: u32 = list[i];
        proof {
            seqs::filter_step(list@, i as int, p);
            assert(tree.kids_of(node as int)[i as int] == child);
        }
        if !tree.arena[child as usize].removed {
            let name = tree.name(child);
            if passes(name.as_str(), &needle) {
                let row = make_list_row(tree, child, name);
                rows.push(row);
            }
        }
        i += 1;
    }
    proof {
        seqs::filter_prefix(list@, i as int, p);
        if i == list@.len() {
            assert(list@.take(i as int) =~= list@);
        }
    }
    rows
}

// ---------------------------------------------------------------------------
// Breadcrumb
// ---------------------------------------------------------------------------

/// Breadcrumb entry.
#[derive(Clone, Debug)]
pub struct Crumb {
    pub id: u32,
    pub name: String,
    pub size: u64,
}

impl Tree {
    /// The way from the scan root down to a node.
    pub open spec fn chain(&self, id: int) -> Seq<u32>
        decreases id,
    {
        if self.has(id) && self.at(id).parent < id {
            self.chain(self.at(id).parent as int).push(id as u32)
        } else {
            seq![id as u32]
        }
    }
}

/// The crumbs show the given nodes in order.
pub open spec fn crumbs_of(c: Seq<Crumb>, t: Tree, ids: Seq<u32>) -> bool {
    &&& c.len() == ids.len()
    &&& forall|i: int|
        0 <= i < c.len() ==> {
            &&& (#[trigger] c[i]).id == ids[i]
            &&& c[i].name@ == t.shown(ids[i] as int)
            &&& c[i].size == (if t.has(ids[i] as int) {
                t.at(ids[i] as int).on_disk
            } else {
                0
            })
        }
}

/// Computes the breadcrumb from the scan root to a node.
pub fn compute_breadcrumb(tree: &Tree, node: u32) -> (r: Vec<Crumb>)
    requires
        tree.wf(),
    ensures
        crumbs_of(r@, *tree, tree.chain(node as int)),
{
    let mut up: Vec<u32> = Vec::new();
    let mut cur: u32 = node;
    assert(tree.chain(node as int) =~= tree.chain(cur as int) + up@.reverse());
    while (cur as usize) < tree.arena.len() && tree.arena[cur as usize].parent != NO_PARENT
        invariant
            tree.wf(),
            tree.chain(node as int) == tree.chain(cur as int) + up@.reverse(),
        decreases cur,
    {
        proof {
            assert(tree.parent_wf(cur as int));
            let above = tree.chain(tree.at(cur as int).parent as int);
            assert(above.push(cur) + up@.reverse() =~= above + up@.push(cur).reverse());
        }
        up.push(cur);
        cur = tree.arena[cur as usize].parent;
    }
    proof {
        if tree.has(cur as int) {
            assert(tree.parent_wf(cur as int));
        }
        assert(tree.chain(cur as int) =~= seq![cur]);
        assert(seq![cur] + up@.reverse() =~= up@.push(cur).reverse());
    }
    up.push(cur);
    let ghost ids = tree.chain(node as int);
    let mut out: Vec<Crumb> = Vec::new();
    let mut i: usize = up.len();
    while i > 0
        invariant
            tree.wf(),
            i <= up.len(),
            ids == up@.reverse(),
            out@.len() == up.len() - i,
            crumbs_of(out@, *tree, ids.take(up.len() - i)),
        decreases i,
    {
        i -= 1;
        let id: u32 = up[i];
        assert(ids[up.len() - i - 1] == id);
        let size: u64 = if (id as usize) < tree.arena.len() {
            tree.arena[id as usize].on_disk
        } else {
            0
        };
        let ghost before = out@;
        out.push(Crumb { id, name: tree.name(id), size });
        proof {
            let more = ids.take(up.len() - i);
            assert forall|k: int| 0 <= k < out@.len() implies {
                &&& (#[trigger] out@[k]).id == more[k]
                &&& out@[k].name@ == tree.shown(more[k] as int)
                &&& out@[k].size == (if tree.has(more[k] as int) {
                    tree.at(more[k] as int).on_disk
                } else {
                    0
                })
            } by {
                if k < before.len() {
                    assert(out@[k] == before[k]);
                    assert(more[k] == ids.take(up.len() - i - 1)[k]);
                }
            }
        }
    }
    assert(ids.take(up@.len() as int) =~= ids);
    out
}

/// A breadcrumb starts at the scan root, ends at the node, and each entry is the
/// folder of the next.
pub proof fn breadcrumb_leads_to_node(t: Tree, id: int)
    requires
        t.wf(),
        t.has(id),
    ensures
        t.chain(id).len() > 0,
        t.chain(id)[0] == 0,
        t.chain(id).last() == id,
        forall|i: int|
            0 <= i < t.chain(id).len() - 1 ==> t.at(#[trigger] t.chain(id)[i + 1] as int).parent
                == t.chain(id)[i],
    decreases id,
{
    assert(t.parent_wf(id));
    if id != 0 {
        let p = t.at(id).parent as int;
        breadcrumb_leads_to_node(t, p);
        let up = t.chain(p);
        assert forall|i: int| 0 <= i < t.chain(id).len() - 1 implies t.at(
            #[trigger] t.chain(id)[i + 1] as int,
        ).parent == t.chain(id)[i] by {
            if i + 1 < up.len() {
                assert(t.chain(id)[i + 1] == up[i + 1]);
                assert(t.chain(id)[i] == up[i]);
            } else {
                assert(t.chain(id)[i] == up.last());
            }
        }
    }
}

// ---------------------------------------------------------------------------
// Age map
// ---------------------------------------------------------------------------

/// One big-and-untouched row.
#[derive(Clone, Debug)]
pub struct BigRow {
    pub id: u32,
    pub name: String,
    pub path: String,
    pub logical: u64,
    pub on_disk: u64,
    pub modified: i64,
    pub protected: bool,
}

/// The age map's dataset.
#[derive(Clone, Debug)]
pub struct AgeMapData {
    pub generation: u64,
    pub node: u32,
    /// Bytes in each age bucket, newest first.
    pub buckets: [u64; 6],
    /// Labels of the buckets in order.
    pub bucket_labels: [String; 6],
    /// Total bytes considered.
    pub total: u64,
    /// Bytes by year and month.
    pub heatmap: MonthHeatmap,
    /// Big-and-untouched rows, largest first.
    pub big: Vec<BigRow>,
}

impl BigRow {
    /// The row of a file.
    pub open spec fn shows(&self, t: Tree, f: AgedFile) -> bool {
        &&& self.id == f.id
        &&& self.name@ == t.shown(f.id as int)
        &&& self.path@ == t.path_of(f.id as int)
        &&& self.logical == f.logical
        &&& self.on_disk == f.on_disk
        &&& self.modified == f.modified
        &&& self.protected == (t.has(f.id as int) && t.at(f.id as int).protected)
    }

    /// The row of a node.
    pub open spec fn is_of(&self, t: Tree, id: u32) -> bool {
        let n = t.at(id as int);
        &&& self.id == id
        &&& self.name@ == t.shown(id as int)
        &&& self.path@ == t.path_of(id as int)
        &&& self.logical == n.logical
        &&& self.on_disk == n.on_disk
        &&& self.modified == n.modified
        &&& self.protected == (t.has(id as int) && n.protected)
    }
}

/// Puts the age map together from its parts, of whatever ages they tell; of the
/// aged files at most [`BIG_CAP`] are shown.
pub fn assemble_age_map(
    tree: &Tree,
    node: u32,
    labels: [String; 6],
    ages: AgeTotals,
    heatmap: MonthHeatmap,
    aged: &Vec<AgedFile>,
) -> (d: AgeMapData)
    requires
        tree.wf(),
    ensures
        d.generation == tree.generation,
        d.node == node,
        d.buckets == ages.bytes,
        d.bucket_labels == labels,
        d.total == ages.total,
        d.heatmap == heatmap,
        d.big@.len() == shares::first_n(aged@, BIG_CAP as int).len(),
        forall|i: int| 0 <= i < d.big@.len() ==> (#[trigger] d.big@[i]).shows(*tree, aged@[i]),
{
    let mut big: Vec<BigRow> = Vec::new();
    let mut i: usize = 0;
    while i < aged.len() && i < BIG_CAP
        invariant
            tree.wf(),
            i <= aged.len(),
            i <= BIG_CAP,
            big@.len() == i,
            forall|k: int| 0 <= k < i ==> (#[trigger] big@[k]).shows(*tree, aged@[k]),
        decreases aged.len() - i,
    {
        let f = aged[i];
        let protected = match tree.node(f.id) {
            Some(n) => n.protected,
            None => false,
        };
        big.push(
            BigRow {
                id: f.id,
                name: tree.name(f.id),
                path: tree.node_path(f.id),
                logical: f.logical,
                on_disk: f.on_disk,
                modified: f.modified,
                protected,
            },
        );
        i += 1;
    }
    AgeMapData {
        generation: tree.generation,
        node,
        buckets: ages.bytes,
        bucket_labels: labels,
        total: ages.total,
        heatmap,
        big,
    }
}

/// Computes the age map of a folder: bytes by age, bytes by month, and the large
/// files that were left alone.
pub fn compute_age_map(tree: &Tree, node: u32, now: i64, scale: AgeScale) -> (d: AgeMapData)
    requires
        tree.wf(),
    ensures
        d.generation == tree.generation,
        d.node == node,
        d.bucket_labels == scale.labels,
        forall|b: int|
            0 <= b < 6 ==> #[trigger] d.buckets@[b] == rollup::capped(
                age::bucket_bytes(
                    *tree,
                    age::files_below(*tree, node),
                    now as int,
                    scale.limits@,
                    b,
                ),
            ),
        d.total == rollup::capped(age::all_bytes(*tree, age::files_below(*tree, node))),
        age::maps(d.heatmap.years@, *tree, age::files_below(*tree, node)),
        ({
            let list = age::left_alone(
                *tree,
                node,
                now as int,
                scale.big_bytes,
                scale.big_age as int,
                BIG_CAP as int,
            );
            &&& d.big@.len() == list.len()
            &&& forall|i: int| 0 <= i < d.big@.len() ==> (#[trigger] d.big@[i]).is_of(
                *tree,
                list[i].1,
            )
        }),
{
    let ages = age::bucket_totals(tree, node, now, &scale.limits);
    let heatmap = age::month_heatmap(tree, node);
    let aged = age::big_untouched(tree, node, now, scale.big_bytes, scale.big_age, BIG_CAP);
    assert(shares::first_n(aged@, BIG_CAP as int) =~= aged@);
    let d = assemble_age_map(tree, node, scale.labels, ages, heatmap, &aged);
    proof {
        let list = age::left_alone(
            *tree,
            node,
            now as int,
            scale.big_bytes,
            scale.big_age as int,
            BIG_CAP as int,
        );
        assert forall|i: int| 0 <= i < d.big@.len() implies (#[trigger] d.big@[i]).is_of(
            *tree,
            list[i].1,
        ) by {
            assert(aged@[i].tells(*tree, list[i].1));
            assert(d.big@[i].shows(*tree, aged@[i]));
        }
    }
    d
}

// ---------------------------------------------------------------------------
// Stale requests
// ---------------------------------------------------------------------------

/// The answer to a request that names a superseded scan.
pub open spec fn stale_text(asked: u64, current: u64) -> Seq<char> {
    "stale generation "@ + text::decimal(asked as nat) + " (current "@ + text::decimal(
        current as nat,
    ) + ")"@
}

/// The answer to a request that names an unknown node.
pub open spec fn missing_text(node: u32) -> Seq<char> {
    "node "@ + text::decimal(node as nat) + " not in tree"@
}

/// Accepts a request exactly where there is a tree and the request names its
/// generation.
pub fn check_generation(tree: Option<&Tree>, generation: u64) -> (r: Result<(), String>)
    ensures
        match tree {
            None => r matches Err(e) && e@ == "no scan yet"@,
            Some(t) => if t.generation != generation {
                r matches Err(e) && e@ == stale_text(generation, t.generation)
            } else {
                r is Ok
            },
        },
{
    match tree {
        None => Err("no scan yet".to_owned()),
        Some(t) => {
            if t.generation != generation {
                let mut e: String = "stale generation ".to_owned();
                e.append(text::decimal_string(generation).as_str());
                e.append(" (current ");
                e.append(text::decimal_string(t.generation).as_str());
                e.append(")");
                Err(e)
            } else {
                Ok(())
            }
        },
    }
}

/// Accepts a request exactly where there is a tree, the request names its
/// generation, and the node exists.
pub fn guard(tree: Option<&Tree>, generation: u64, node: u32) -> (r: Result<(), String>)
    ensures
        match tree {
            None => r matches Err(e) && e@ == "no scan yet"@,
            Some(t) => if t.generation != generation {
                r matches Err(e) && e@ == stale_text(generation, t.generation)
            } else if !t.has(node as int) {
                r matches Err(e) && e@ == missing_text(node)
            } else {
                r is Ok
            },
        },
{
    match check_generation(tree, generation) {
        Err(e) => Err(e),
        Ok(_) => {
            if let Some(t) = tree {
                if (node as usize) >= t.arena.len() {
                    let mut e: String = "node ".to_owned();
                    e.append(text::decimal_string(node as u64).as_str());
                    e.append(" not in tree");
                    return Err(e);
                }
            }
            Ok(())
        },
    }
}

/// Answers a path request: the node with the display path where the request
/// names the tree's generation and the path lies inside the scan, else nothing.
pub fn resolve_path(tree: Option<&Tree>, generation: u64, path: &str) -> (r: Option<u32>)
    requires
        tree matches Some(t) ==> t.wf(),
    ensures
        r == (match tree {
            Some(t) => if t.generation == generation {
                t.located(crate::locate::normal(path@))
            } else {
                None
            },
            None => None,
        }),
{
    match tree {
        Some(t) => {
            if t.generation == generation {
                t.resolve_display_path(path)
            } else {
                None
            }
        },
        None => None,
    }
}

/// The age map of a folder holds the bytes by age, the bytes by month and the
/// large old files of that folder, each as it is told on its own; of the files
/// at most five hundred, with their names and paths.
pub proof fn the_age_map_tells_its_parts(
    tree: &Tree,
    node: u32,
    now: i64,
    scale: AgeScale,
    d: AgeMapData,
    ages: AgeTotals,
    aged: Vec<AgedFile>,
)
    requires
        tree.wf(),
        call_ensures(compute_age_map, (tree, node, now, scale), d),
        call_ensures(age::bucket_totals, (tree, node, now, &scale.limits), ages),
        call_ensures(
            age::big_untouched,
            (tree, node, now, scale.big_bytes, scale.big_age, 500usize),
            aged,
        ),
    ensures
        d.generation == tree.generation,
        d.node == node,
        d.bucket_labels == scale.labels,
        forall|b: int| 0 <= b < 6 ==> #[trigger] d.buckets@[b] == ages.bytes@[b],
        d.total == ages.total,
        d.big@.len() == aged@.len(),
        forall|i: int|
            0 <= i < d.big@.len() ==> {
                let id = aged@[i].id as int;
                &&& (#[trigger] d.big@[i]).id == aged@[i].id
                &&& d.big@[i].name@ == tree.shown(id)
                &&& d.big@[i].path@ == tree.path_of(id)
                &&& d.big@[i].logical == aged@[i].logical
                &&& d.big@[i].on_disk == aged@[i].on_disk
                &&& d.big@[i].modified == aged@[i].modified
                &&& d.big@[i].protected == (id < tree.arena@.len() && tree.arena@[id].protected)
            },
{
    let list = age::left_alone(
        *tree,
        node,
        now as int,
        scale.big_bytes,
        scale.big_age as int,
        BIG_CAP as int,
    );
    assert forall|i: int| 0 <= i < d.big@.len() implies {
        &&& (#[trigger] d.big@[i]).is_of(*tree, list[i].1)
        &&& aged@[i].tells(*tree, list[i].1)
    } by {}
    assert forall|b: int| 0 <= b < 6 implies #[trigger] d.buckets@[b] == ages.bytes@[b] by {}
}

// ---------------------------------------------------------------------------
// What the datasets show
// ---------------------------------------------------------------------------

/// The folder grid shows the live children that pass the filter in child order:
/// every such folder, and the first six hundred such files. `at` gives the
/// places of the folders and of the files among the children.
pub proof fn the_grid_shows_the_children(
    tree: &Tree,
    node: u32,
    filter: &str,
    v: FolderView,
) -> (at: (Seq<int>, Seq<int>))
    requires
        tree.wf(),
        tree.has(node as int),
        call_ensures(compute_folder_view, (tree, node, filter), v),
    ensures
        ({
            let kids = tree.kids@[node as int]@;
            let e = tree.dir_extras@[tree.arena@[node as int].dir_index as int];
            let needle = needle_of(filter@);
            &&& v.size == tree.arena@[node as int].on_disk
            &&& tree.arena@[node as int].dir ==> v.file_count == e.file_count && v.folder_count
                == e.folder_count
            &&& !tree.arena@[node as int].dir ==> v.file_count == 0 && v.folder_count == 0
            &&& v.folders@.len() == at.0.len()
            &&& at.1.len() <= 600 ==> v.files@.len() == at.1.len() && !v.files_capped
            &&& at.1.len() > 600 ==> v.files@.len() == 600 && v.files_capped
            &&& forall|a: int, b: int|
                0 <= a < b < at.0.len() ==> #[trigger] at.0[a] < #[trigger] at.0[b]
            &&& forall|a: int, b: int|
                0 <= a < b < at.1.len() ==> #[trigger] at.1[a] < #[trigger] at.1[b]
            &&& forall|k: int|
                0 <= k < v.folders@.len() ==> {
                    let c = kids[at.0[k]];
                    let n = tree.arena@[c as int];
                    let x = tree.dir_extras@[n.dir_index as int];
                    &&& 0 <= at.0[k] < kids.len()
                    &&& (#[trigger] v.folders@[k]).id == c
                    &&& v.folders@[k].name@ == tree.shown(c as int)
                    &&& v.folders@[k].size == n.on_disk
                    &&& v.folders@[k].file_count == x.file_count
                    &&& v.folders@[k].folder_count == x.folder_count
                    &&& x.file_count + x.folder_count <= u64::MAX ==> v.folders@[k].item_count
                        == x.file_count + x.folder_count
                    &&& v.folders@[k].modified == x.max_descendant_modified
                    &&& v.folders@[k].protected == n.protected
                    &&& v.folders@[k].categories@.len() <= 3
                }
            &&& forall|k: int|
                0 <= k < v.files@.len() ==> {
                    let c = kids[at.1[k]];
                    let n = tree.arena@[c as int];
                    &&& 0 <= at.1[k] < kids.len()
                    &&& (#[trigger] v.files@[k]).id == c
                    &&& v.files@[k].name@ == tree.shown(c as int)
                    &&& v.files@[k].size == n.on_disk
                    &&& v.files@[k].category@ == tree.palette.styles@[n.kind.index()].label@
                    &&& v.files@[k].category_color == tree.palette.styles@[n.kind.index()].color
                    &&& v.files@[k].modified == n.modified
                    &&& v.files@[k].protected == n.protected
                    &&& v.files@[k].cloud == n.cloud
                }
            &&& forall|j: int|
                0 <= j < kids.len() ==> {
                    let n = tree.arena@[(#[trigger] kids[j]) as int];
                    let shown = !n.removed && name_passes(tree.shown(kids[j] as int), needle);
                    &&& at.0.contains(j) <==> shown && n.dir
                    &&& at.1.contains(j) <==> shown && !n.dir
                }
        }),
{
    let t = *tree;
    let kids = t.kids_of(node as int);
    let needle = needle_of(filter@);
    let pd = visible_dir(t, needle);
    let pf = visible_file(t, needle);
    let a0 = seqs::filter_places(kids, pd);
    let a1 = seqs::filter_places(kids, pf);
    let dirs = kids.filter(pd);
    let files = kids.filter(pf);
    assert(t.kids_wf(node as int));
    assert forall|k: int| 0 <= k < v.folders@.len() implies {
        &&& (#[trigger] v.folders@[k]).shows(t, kids[a0[k]])
        &&& 0 <= a0[k] < kids.len()
        &&& t.at(kids[a0[k]] as int).dir
    } by {
        assert(dirs[k] == kids[a0[k]]);
        assert(pd(kids[a0[k]]));
    }
    assert forall|k: int| 0 <= k < v.files@.len() implies {
        &&& (#[trigger] v.files@[k]).shows(t, kids[a1[k]])
        &&& 0 <= a1[k] < kids.len()
    } by {
        assert(files[k] == kids[a1[k]]);
    }
    assert forall|j: int| 0 <= j < kids.len() implies {
        let n = tree.arena@[(#[trigger] kids[j]) as int];
        let shown = !n.removed && name_passes(tree.shown(kids[j] as int), needle);
        &&& a0.contains(j) <==> shown && n.dir
        &&& a1.contains(j) <==> shown && !n.dir
    } by {
        assert(a0.contains(j) <==> pd(kids[j]));
        assert(a1.contains(j) <==> pf(kids[j]));
    }
    (a0, a1)
}

/// The dots of a folder card are its fullest categories, three at most: each with
/// its bytes, the largest first, and what is missing is no larger.
pub proof fn dots_show_the_fullest_categories(
    tree: &Tree,
    node: u32,
    filter: &str,
    v: FolderView,
    k: int,
)
    requires
        tree.wf(),
        tree.has(node as int),
        call_ensures(compute_folder_view, (tree, node, filter), v),
        0 <= k < v.folders@.len(),
    ensures
        ({
            let d = v.folders@[k].categories@;
            let id = v.folders@[k].id as int;
            let sizes = tree.dir_extras@[tree.arena@[id].dir_index as int].type_sizes@;
            &&& d.len() <= 3
            &&& forall|i: int, j: int|
                0 <= i < j < d.len() ==> (#[trigger] d[i]).size >= (#[trigger] d[j]).size
            &&& forall|i: int|
                0 <= i < d.len() ==> (#[trigger] d[i]).size > 0 && exists|c: int|
                    0 <= c < 9 && #[trigger] sizes[c] == d[i].size && d[i].color
                        == tree.palette.styles@[c].color && d[i].label@
                        == tree.palette.styles@[c].label@
            &&& forall|c: int|
                0 <= c < 9 && #[trigger] sizes[c] > 0 ==> (exists|i: int|
                    0 <= i < d.len() && (#[trigger] d[i]).size == sizes[c]) || (d.len() == 3
                    && d[2].size >= sizes[c])
        }),
{
    let t = *tree;
    let at = the_grid_shows_the_children(tree, node, filter, v);
    let kids = t.kids_of(node as int);
    let j = at.0[k];
    let id = kids[j] as int;
    assert(t.kids_wf(node as int));
    assert(t.has(id)) by {
        let c = t.kids_of(node as int)[j];
    }
    assert(at.0.contains(j)) by {
        assert(at.0[k] == j);
    }
    let p = visible_dir(t, needle_of(filter@));
    assert(t.at(id).dir);
    let dirs = kids.filter(p);
    assert(v.folders@[k].shows(t, dirs[k]));
    assert(v.folders@[k].id == kids[j]);
    shares::categories_are_ranked(t, id);
    let full = t.category_ranking(id);
    let d = v.folders@[k].categories@;
    let sizes = t.extra(id).type_sizes@;
    assert(dots_of(d, t, id));
    assert forall|i: int| 0 <= i < d.len() implies (#[trigger] d[i]).size == full[i].0 && d[i].color
        == t.palette.styles@[full[i].1 as int].color && d[i].label@
        == t.palette.styles@[full[i].1 as int].label@ by {}
    assert forall|i: int, m: int| 0 <= i < m < d.len() implies (#[trigger] d[i]).size >= (
    #[trigger] d[m]).size by {
        assert(full[i].0 > full[m].0 || (full[i].0 == full[m].0 && full[i].1 < full[m].1));
    }
    assert forall|i: int| 0 <= i < d.len() implies (#[trigger] d[i]).size > 0 && exists|c: int|
        0 <= c < 9 && #[trigger] sizes[c] == d[i].size && d[i].color
            == tree.palette.styles@[c].color && d[i].label@ == tree.palette.styles@[c].label@ by {
        assert(full[i].0 == sizes[full[i].1 as int]);
    }
    assert forall|c: int| 0 <= c < 9 && #[trigger] sizes[c] > 0 implies (exists|i: int|
        0 <= i < d.len() && (#[trigger] d[i]).size == sizes[c]) || (d.len() == 3 && d[2].size
        >= sizes[c]) by {
        let e = (sizes[c], c as u32);
        assert(full.contains(e));
        let q = full.index_of(e);
        assert(full[q] == e);
        if q < 3 {
            assert(d[q].size == sizes[c]);
        } else {
            assert(full[2].0 > full[q].0 || (full[2].0 == full[q].0 && full[2].1 < full[q].1));
        }
    }
}

/// The list shows the live children that pass the filter in child order, the
/// first five hundred of them. `at` gives their places among the children.
pub proof fn the_list_shows_the_children(
    tree: &Tree,
    node: u32,
    filter: &str,
    r: Vec<ListRow>,
) -> (at: Seq<int>)
    requires
        tree.wf(),
        tree.has(node as int),
        call_ensures(compute_list, (tree, node, filter), r),
    ensures
        ({
            let kids = tree.kids@[node as int]@;
            &&& at.len() <= 500 ==> r@.len() == at.len()
            &&& at.len() > 500 ==> r@.len() == 500
            &&& forall|a: int, b: int| 0 <= a < b < at.len() ==> #[trigger] at[a] < #[trigger] at[b]
            &&& forall|k: int|
                0 <= k < r@.len() ==> {
                    let c = kids[at[k]];
                    let n = tree.arena@[c as int];
                    &&& 0 <= at[k] < kids.len()
                    &&& (#[trigger] r@[k]).id == c
                    &&& r@[k].name@ == tree.shown(c as int)
                    &&& r@[k].is_dir == n.dir
                    &&& r@[k].size == n.on_disk
                    &&& r@[k].share.part == n.on_disk
                    &&& r@[k].share.whole == tree.arena@[node as int].on_disk
                    &&& n.dir ==> r@[k].category@ == "Folder"@
                    &&& !n.dir ==> r@[k].category@ == tree.palette.styles@[n.kind.index()].label@
                        && r@[k].color == tree.palette.styles@[n.kind.index()].color
                    &&& n.dir ==> r@[k].items == tree.kids@[c as int]@.len()
                    &&& !n.dir ==> r@[k].items == 0
                    &&& r@[k].has_children <==> n.dir && tree.kids@[c as int]@.len() > 0
                    &&& r@[k].protected == n.protected
                    &&& r@[k].cloud == n.cloud
                    &&& r@[k].modified == n.modified
                }
            &&& forall|j: int|
                0 <= j < kids.len() ==> (at.contains(j) <==> !tree.arena@[
                    (#[trigger] kids[j]) as int
                ].removed && name_passes(tree.shown(kids[j] as int), needle_of(filter@)))
        }),
{
    let t = *tree;
    let kids = t.kids_of(node as int);
    let p = visible(t, needle_of(filter@));
    let at = seqs::filter_places(kids, p);
    let ids = kids.filter(p);
    assert(t.kids_wf(node as int));
    assert forall|k: int| 0 <= k < r@.len() implies {
        &&& (#[trigger] r@[k]).shows(t, kids[at[k]])
        &&& 0 <= at[k] < kids.len()
        &&& t.has(kids[at[k]] as int)
        &&& t.at(kids[at[k]] as int).parent == node
    } by {
        assert(ids[k] == kids[at[k]]);
        let c = t.kids_of(node as int)[at[k]];
    }
    assert forall|j: int| 0 <= j < kids.len() implies (at.contains(j) <==> !tree.arena@[
        (#[trigger] kids[j]) as int
    ].removed && name_passes(tree.shown(kids[j] as int), needle_of(filter@))) by {
        assert(at.contains(j) <==> p(kids[j]));
    }
    at
}

/// The inspector shows the first ten live children of a node in child order;
/// `at` gives the places of all live ones. A folder has the colour of its
/// dominant category, a file that of its own.
pub proof fn the_inspector_shows_the_largest_inside(
    tree: &Tree,
    id: u32,
    d: NodeDetails,
    c: FileCategory,
) -> (at: Seq<int>)
    requires
        tree.wf(),
        tree.has(id as int),
        call_ensures(compute_details, (tree, id), d),
        call_ensures(Tree::dominant_category, (tree, id), c),
    ensures
        ({
            let kids = tree.kids@[id as int]@;
            let n = tree.arena@[id as int];
            let e = tree.dir_extras@[n.dir_index as int];
            &&& n.dir ==> d.files == e.file_count && d.folders == e.folder_count
            &&& !n.dir ==> d.files == 0 && d.folders == 0
            &&& n.dir && is_drive_path(d.path@) ==> d.kind@ == "Disk"@
            &&& n.dir && !is_drive_path(d.path@) ==> d.kind@ == "Folder"@
            &&& !n.dir ==> d.kind@ == tree.palette.styles@[n.kind.index()].label@
            &&& n.dir ==> d.kind_color == tree.palette.styles@[c.index()].color
            &&& !n.dir ==> d.kind_color == tree.palette.styles@[n.kind.index()].color
            &&& d.of_parent.part == n.on_disk
            &&& id > 0 ==> d.of_parent.whole == tree.arena@[n.parent as int].on_disk
            &&& id == 0 ==> d.of_parent.whole == n.on_disk
            &&& n.on_disk >= n.logical ==> d.overhead == n.on_disk - n.logical && d.savings == 0
            &&& n.on_disk <= n.logical ==> d.savings == n.logical - n.on_disk && d.overhead == 0
            &&& at.len() <= 10 ==> d.largest@.len() == at.len()
            &&& at.len() > 10 ==> d.largest@.len() == 10
            &&& forall|a: int, b: int| 0 <= a < b < at.len() ==> #[trigger] at[a] < #[trigger] at[b]
            &&& forall|k: int|
                0 <= k < d.largest@.len() ==> {
                    let x = kids[at[k]];
                    &&& 0 <= at[k] < kids.len()
                    &&& (#[trigger] d.largest@[k]).id == x
                    &&& d.largest@[k].name@ == tree.shown(x as int)
                    &&& d.largest@[k].size == tree.arena@[x as int].on_disk
                    &&& d.largest@[k].is_dir == tree.arena@[x as int].dir
                }
            &&& forall|j: int|
                0 <= j < kids.len() ==> (at.contains(j) <==> !tree.arena@[
                    (#[trigger] kids[j]) as int
                ].removed)
        }),
{
    let t = *tree;
    let kids = t.kids_of(id as int);
    let p = live(t);
    let at = seqs::filter_places(kids, p);
    let ids = kids.filter(p);
    assert(t.kids_wf(id as int));
    assert(t.parent_wf(id as int));
    assert forall|k: int| 0 <= k < d.largest@.len() implies {
        &&& (#[trigger] d.largest@[k]).shows(t, kids[at[k]])
        &&& 0 <= at[k] < kids.len()
    } by {
        assert(ids[k] == kids[at[k]]);
    }
    assert forall|j: int| 0 <= j < kids.len() implies (at.contains(j) <==> !tree.arena@[
        (#[trigger] kids[j]) as int
    ].removed) by {
        assert(at.contains(j) <==> p(kids[j]));
    }
    at
}

/// A breadcrumb leads from the scan root to the node, each entry being the folder
/// of the next, with names and sizes.
pub proof fn crumbs_lead_to_the_node(tree: &Tree, node: u32, r: Vec<Crumb>)
    requires
        tree.wf(),
        tree.has(node as int),
        call_ensures(compute_breadcrumb, (tree, node), r),
    ensures
        r@.len() > 0,
        r@[0].id == 0,
        r@.last().id == node,
        forall|i: int, j: int|
            0 <= i && j == i + 1 && j < r@.len() ==> tree.arena@[
                (#[trigger] r@[j]).id as int
            ].parent == (#[trigger] r@[i]).id,
        forall|i: int|
            0 <= i < r@.len() ==> {
                &&& (#[trigger] r@[i]).id < tree.arena@.len()
                &&& r@[i].name@ == tree.shown(r@[i].id as int)
                &&& r@[i].size == tree.arena@[r@[i].id as int].on_disk
            },
{
    let t = *tree;
    breadcrumb_leads_to_node(t, node as int);
    chain_is_nodes(t, node as int);
    let ids = t.chain(node as int);
    assert forall|i: int, j: int| 0 <= i && j == i + 1 && j < r@.len() implies tree.arena@[
        (#[trigger] r@[j]).id as int
    ].parent == (#[trigger] r@[i]).id by {
        assert(t.at(ids[i + 1] as int).parent == ids[i]);
    }
}

proof fn chain_is_nodes(t: Tree, id: int)
    requires
        t.wf(),
        t.has(id),
    ensures
        forall|i: int| 0 <= i < t.chain(id).len() ==> t.has(#[trigger] t.chain(id)[i] as int),
    decreases id,
{
    assert(t.parent_wf(id));
    if id != 0 {
        chain_is_nodes(t, t.at(id).parent as int);
        let up = t.chain(t.at(id).parent as int);
        assert forall|i: int| 0 <= i < t.chain(id).len() implies t.has(
            #[trigger] t.chain(id)[i] as int,
        ) by {
            if i < up.len() {
                assert(t.chain(id)[i] == up[i]);
            }
        }
    }
}

/// A request is answered where there is a tree, it names the tree's generation,
/// and it names one of its nodes; each refusal says why.
pub proof fn requests_name_the_tree_and_a_node(
    tree: Option<&Tree>,
    generation: u64,
    node: u32,
    c: Result<(), String>,
    g: Result<(), String>,
)
    requires
        call_ensures(check_generation, (tree, generation), c),
        call_ensures(guard, (tree, generation, node), g),
    ensures
        c is Ok <==> (tree matches Some(t) && t.generation == generation),
        g is Ok <==> (tree matches Some(t) && t.generation == generation && node < t.arena@.len()),
        tree is None ==> (c matches Err(e) && e@ == "no scan yet"@) && (g matches Err(e) && e@
            == "no scan yet"@),
        tree matches Some(t) ==> t.generation != generation ==> (c matches Err(e) && e@
            == "stale generation "@ + text::decimal(generation as nat) + " (current "@
            + text::decimal(t.generation as nat) + ")"@) && (g matches Err(e) && e@
            == "stale generation "@ + text::decimal(generation as nat) + " (current "@
            + text::decimal(t.generation as nat) + ")"@),
        tree matches Some(t) ==> t.generation == generation && node >= t.arena@.len() ==> (
        g matches Err(e) && e@ == "node "@ + text::decimal(node as nat) + " not in tree"@),
{
}

/// A path request is answered by the current tree alone: by what a search for
/// the same path in it finds.
pub proof fn paths_are_looked_for_in_the_current_tree(
    tree: Option<&Tree>,
    generation: u64,
    path: &str,
    r: Option<u32>,
    found: Option<u32>,
)
    requires
        tree matches Some(t) ==> t.wf(),
        call_ensures(resolve_path, (tree, generation, path), r),
        tree matches Some(t) ==> call_ensures(Tree::resolve_display_path, (t, path), found),
    ensures
        tree is None ==> r is None,
        tree matches Some(t) ==> t.generation != generation ==> r is None,
        tree matches Some(t) ==> t.generation == generation ==> r == found,
{
}

/// A drive path is two or three bytes long and begins with a letter and a colon.
pub proof fn a_drive_path_is_short(path: &str, r: bool)
    requires
        call_ensures(drive_path, (path,), r),
    ensures
        ({
            let b = vstd::utf8::encode_utf8(path@);
            r <==> (b.len() == 2 || b.len() == 3) && (65 <= b[0] <= 90 || 97 <= b[0] <= 122) && b[1]
                == 58
        }),
{
}

} // verus!
