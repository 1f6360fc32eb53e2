//! Top Sizes: the largest children, files or folders of a folder, and the cache
//! of finished rankings.
use crate::explore;
use crate::explore::{FOLDER_COLOR, TOP_CAP};
use crate::order;
use crate::rollup;
use crate::seqs;
use crate::shares;
use crate::shares::Share;
use crate::text;
use crate::tree::{Tree, NO_PARENT};
use vstd::prelude::*;

verus! {

/// What a ranking looks at.
#[derive(Clone, Copy, Debug, PartialEq, Eq, Structural)]
pub enum TopScope {
    /// Direct children.
    InFolder,
    /// Files anywhere below.
    FilesAnywhere,
    /// Folders anywhere below.
    FoldersAnywhere,
}

impl TopScope {
    /// The id of the scope.
    pub open spec fn id(self) -> Seq<char> {
        match self {
            TopScope::InFolder => "in-folder"@,
            TopScope::FilesAnywhere => "files-anywhere"@,
            TopScope::FoldersAnywhere => "folders-anywhere"@,
        }
    }

    /// Different scopes have different ids.
    pub proof fn ids_differ(a: TopScope, b: TopScope)
        ensures
            a.id() == b.id() ==> a == b,
    {
        reveal_strlit("in-folder");
        reveal_strlit("files-anywhere");
        reveal_strlit("folders-anywhere");
        assert("in-folder"@.len() == 9);
        assert("files-anywhere"@.len() == 14);
        assert("folders-anywhere"@.len() == 16);
    }

    /// Parses a scope id.
    pub fn parse(s: &str) -> (r: Option<Self>)
        ensures
            forall|x: TopScope| r == Some(x) <==> s@ == #[trigger] x.id(),
            r is None <==> forall|x: TopScope| s@ != #[trigger] x.id(),
    {
        proof {
            TopScope::ids_differ(TopScope::InFolder, TopScope::FilesAnywhere);
            TopScope::ids_differ(TopScope::InFolder, TopScope::FoldersAnywhere);
            TopScope::ids_differ(TopScope::FilesAnywhere, TopScope::FoldersAnywhere);
        }
        if text::same_str(s, "in-folder") {
            assert(s@ == TopScope::InFolder.id());
            Some(TopScope::InFolder)
        } else if text::same_str(s, "files-anywhere") {
            assert(s@ == TopScope::FilesAnywhere.id());
            Some(TopScope::FilesAnywhere)
        } else if text::same_str(s, "folders-anywhere") {
            assert(s@ == TopScope::FoldersAnywhere.id());
            Some(TopScope::FoldersAnywhere)
        } else {
            assert forall|x: TopScope| s@ != #[trigger] x.id() by {
                match x {
                    TopScope::InFolder => {},
                    TopScope::FilesAnywhere => {},
                    TopScope::FoldersAnywhere => {},
                }
            }
            None
        }
    }

    /// The scope's id.
    pub fn as_id(self) -> (r: &'static str)
        ensures
            r@ == self.id(),
    {
        match self {
            TopScope::InFolder => "in-folder",
            TopScope::FilesAnywhere => "files-anywhere",
            TopScope::FoldersAnywhere => "folders-anywhere",
        }
    }
}

/// The answer to a request that names an unknown scope.
pub open spec fn unknown_scope_text(s: Seq<char>) -> Seq<char> {
    "unknown scope "@ + s
}

/// Parses the scope of a request.
pub fn scope_of_request(s: &str) -> (r: Result<TopScope, String>)
    ensures
        match r {
            Ok(x) => s@ == x.id(),
            Err(e) => (forall|x: TopScope| s@ != #[trigger] x.id()) && e@ == unknown_scope_text(s@),
        },
{
    match TopScope::parse(s) {
        Some(x) => {
            assert(s@ == x.id());
            Ok(x)
        },
        None => Err(text::join2("unknown scope ", s)),
    }
}

/// One ranked row.
#[derive(Clone, Debug)]
pub struct TopRow {
    pub rank: u32,
    pub id: u32,
    pub name: String,
    /// Path of the containing folder ("anywhere" scopes; empty otherwise).
    pub parent_path: String,
    pub size: u64,
    /// "N files" for folders; category label for files.
    pub kind: String,
    pub is_dir: bool,
    /// Part of the folder.
    pub share: Share,
    /// `0xRRGGBB`.
    pub color: u32,
}

/// A ranking.
#[derive(Clone, Debug)]
pub struct TopSizes {
    pub generation: u64,
    pub node: u32,
    /// Scope id.
    pub scope: String,
    pub rows: Vec<TopRow>,
    /// On-disk bytes of the folder.
    pub total: u64,
}

/// The path of the folder that holds a node; empty for the scan root.
pub open spec fn parent_path_of(t: Tree, id: int) -> Seq<char> {
    if t.at(id).parent == NO_PARENT {
        Seq::empty()
    } else {
        t.path_of(t.at(id).parent as int)
    }
}

impl TopRow {
    /// The row of a node in a ranking of the folder `node`.
    pub open spec fn shows(
        &self,
        t: Tree,
        node: u32,
        rank: int,
        id: u32,
        with_path: bool,
    ) -> bool {
        let n = t.at(id as int);
        &&& self.rank == rank
        &&& self.id == id
        &&& self.name@ == t.shown(id as int)
        &&& self.parent_path@ == (if with_path {
            parent_path_of(t, id as int)
        } else {
            Seq::empty()
        })
        &&& self.size == n.on_disk
        &&& self.kind@ == (if n.dir {
            text::decimal(t.extra(id as int).file_count as nat) + " files"@
        } else {
            t.palette.label_of(n.kind)
        })
        &&& self.is_dir == n.dir
        &&& self.share == (Share { part: n.on_disk, whole: t.at(node as int).on_disk })
        &&& self.color == (if n.dir {
            FOLDER_COLOR
        } else {
            t.palette.color_of(n.kind)
        })
    }
}

/// A live child with bytes whose name passes.
pub open spec fn listed(t: Tree, needle: Seq<char>, c: u32) -> bool {
    explore::visible(t, needle)(c) && t.at(c as int).on_disk > 0
}

/// The listed ones of the first `n` children with their positions counted
/// from 1.
pub open spec fn in_folder(t: Tree, list: Seq<u32>, needle: Seq<char>, n: nat) -> Seq<(int, u32)>
    decreases n,
{
    if n == 0 {
        Seq::empty()
    } else {
        let rest = in_folder(t, list, needle, (n - 1) as nat);
        if listed(t, needle, list[n - 1]) {
            rest.push((n as int, list[n - 1]))
        } else {
            rest
        }
    }
}

/// A live node with bytes of the wanted kind, not the ranked folder itself.
pub open spec fn candidate(t: Tree, node: u32, want_dirs: bool) -> spec_fn(u32) -> bool {
    |id: u32|
        {
            let n = t.at(id as int);
            n.dir == want_dirs && !n.removed && n.on_disk > 0 && !(want_dirs && id == node)
        }
}

/// Ids with consecutive ranks from 1.
pub open spec fn numbered(ids: Seq<u32>) -> Seq<(int, u32)> {
    Seq::new(ids.len(), |i: int| (i + 1, ids[i]))
}

/// The ids of ranked entries.
pub open spec fn ids_of(s: Seq<(u64, u32)>) -> Seq<u32> {
    s.map_values(|p: (u64, u32)| p.1)
}

/// The largest candidates anywhere below a folder.
pub open spec fn largest_anywhere(t: Tree, node: u32, want_dirs: bool) -> Seq<u32> {
    let c = t.preorder(node as int).filter(candidate(t, node, want_dirs));
    ids_of(shares::first_n(order::ranking(t.sized(c)), TOP_CAP as int))
}

/// The ranks and nodes of a ranking.
pub open spec fn top_list(t: Tree, node: u32, scope: TopScope, needle: Seq<char>) -> Seq<
    (int, u32),
> {
    match scope {
        TopScope::InFolder => {
            let k = t.kids_of(node as int);
            shares::first_n(in_folder(t, k, needle, k.len()), TOP_CAP as int)
        },
        TopScope::FilesAnywhere => numbered(
            largest_anywhere(t, node, false).filter(explore::visible(t, needle)),
        ),
        TopScope::FoldersAnywhere => numbered(
            largest_anywhere(t, node, true).filter(explore::visible(t, needle)),
        ),
    }
}

/// The rows show the given ranks and nodes.
pub open spec fn rows_show(
    r: Seq<TopRow>,
    t: Tree,
    node: u32,
    list: Seq<(int, u32)>,
    with_path: bool,
) -> bool {
    &&& r.len() == list.len()
    &&& forall|i: int|
        0 <= i < r.len() ==> (#[trigger] r[i]).shows(t, node, list[i].0, list[i].1, with_path)
}

/// The row of a node.
fn make_row(
    tree: &Tree,
    node: u32,
    rank: u32,
    id: u32,
    name: String,
    parent_path: String,
    with_path: bool,
) -> (r: TopRow)
    requires
        tree.wf(),
        tree.has(node as int),
        tree.has(id as int),
        name@ == tree.shown(id as int),
        parent_path@ == (if with_path {
            parent_path_of(*tree, id as int)
        } else {
            Seq::empty()
        }),
    ensures
        r.shows(*tree, node, rank as int, id, with_path),
{
    let n = tree.arena[id as usize];
    let kind = if n.dir {
        let (files, _) = tree.counts(id);
        text::join2(text::decimal_string(files).as_str(), " files")
    } else {
        tree.palette.label(n.kind)
    };
    TopRow {
        rank,
        id,
        name,
        parent_path,
        size: n.on_disk,
        kind,
        is_dir: n.dir,
        share: Share { part: n.on_disk, whole: tree.arena[node as usize].on_disk },
        color: if n.dir {
            FOLDER_COLOR
        } else {
            tree.palette.color(n.kind)
        },
    }
}

/// Ranks the direct children.
fn rank_in_folder(tree: &Tree, node: u32, needle: &Vec<char>) -> (rows: Vec<TopRow>)
    requires
        tree.wf(),
        tree.has(node as int),
    ensures
        rows_show(
            rows@,
            *tree,
            node,
            top_list(*tree, node, TopScope::InFolder, needle@),
            false,
        ),
{
    let list = tree.children_sorted(node);
    let mut rows: Vec<TopRow> = Vec::new();
    let mut i: usize = 0;
    proof {
        assert(tree.kids_wf(node as int));
        tree.kids_bound(node as int);
    }
    while i < list.len() && rows.len() < TOP_CAP
        invariant
            tree.wf(),
            tree.has(node as int),
            tree.kids_wf(node as int),
            list@ == tree.kids_of(node as int),
            list@.len() < tree.size(),
            i <= list.len(),
            rows@.len() <= TOP_CAP,
            rows_show(rows@, *tree, node, in_folder(*tree, list@, needle@, i as nat), false),
        decreases list.len() - i,
    {
        let child: u32 = list[i];
        assert(tree.kids_of(node as int)[i as int] == child);
        let n = tree.arena[child as usize];
        if !n.removed && n.on_disk > 0 {
            let name = tree.name(child);
            if explore::passes(name.as_str(), needle) {
                assert(listed(*tree, needle@, child));
                let row = make_row(tree, node, i as u32 + 1, child, name, String::new(), false);
                rows.push(row);
            }
        }
        i += 1;
    }
    proof {
        in_folder_grows(*tree, list@, needle@, i as nat, list@.len());
    }
    rows
}

proof fn in_folder_grows(t: Tree, list: Seq<u32>, needle: Seq<char>, n: nat, m: nat)
    requires
        n <= m,
    ensures
        in_folder(t, list, needle, n).len() <= in_folder(t, list, needle, m).len(),
        in_folder(t, list, needle, m).take(in_folder(t, list, needle, n).len() as int)
            == in_folder(t, list, needle, n),
    decreases m,
{
    let a = in_folder(t, list, needle, n);
    if n == m {
        assert(a.take(a.len() as int) =~= a);
    } else {
        in_folder_grows(t, list, needle, n, (m - 1) as nat);
        let b = in_folder(t, list, needle, (m - 1) as nat);
        let c = in_folder(t, list, needle, m);
        assert(c.take(a.len() as int) =~= b.take(a.len() as int));
    }
}

/// Collects the candidates below a folder with their sizes.
fn collect_candidates(tree: &Tree, node: u32, want_dirs: bool) -> (r: Vec<(u64, u32)>)
    requires
        tree.wf(),
    ensures
        r@ == tree.sized(tree.preorder(node as int).filter(candidate(*tree, node, want_dirs))),
        forall|i: int| 0 <= i < r@.len() ==> tree.has((#[trigger] r@[i]).1 as int),
{
    let ids = tree.walk(node);
    let ghost p = candidate(*tree, node, want_dirs);
    let mut out: Vec<(u64, u32)> = Vec::new();
    let mut i: usize = 0;
    proof {
        tree.walk_is_the_subtree(node);
        assert forall|k: int| 0 <= k < ids@.len() implies tree.has(#[trigger] ids@[k] as int) by {
            assert(ids@.contains(ids@[k]));
            tree.under_is_later(ids@[k] as int, node as int);
        }
        seqs::filter_nothing::<u32>(p);
        assert(ids@.take(0) =~= Seq::empty());
        assert(out@ =~= tree.sized(Seq::empty()));
    }
    while i < ids.len()
        invariant
            tree.wf(),
            i <= ids.len(),
            forall|k: int| 0 <= k < ids@.len() ==> tree.has(#[trigger] ids@[k] as int),
            p == candidate(*tree, node, want_dirs),
            out@ == tree.sized(ids@.take(i as int).filter(p)),
            forall|k: int| 0 <= k < out@.len() ==> tree.has((#[trigger] out@[k]).1 as int),
        decreases ids.len() - i,
    {
        let id: u32 = ids[i];
        proof {
            seqs::filter_step(ids@, i as int, p);
            assert(tree.has(ids@[i as int] as int));
        }
        let n = tree.arena[id as usize];
        let ghost before = ids@.take(i as int).filter(p);
        if n.dir == want_dirs && !n.removed && n.on_disk > 0 && !(want_dirs && id == node) {
            out.push((n.on_disk, id));
            assert(tree.sized(before.push(id)) =~= tree.sized(before).push((n.on_disk, id)));
        }
        i += 1;
    }
    assert(ids@.take(i as int) =~= ids@);
    out
}

/// Ranks files or folders anywhere below.
fn rank_anywhere(tree: &Tree, node: u32, want_dirs: bool, needle: &Vec<char>) -> (rows: Vec<TopRow>)
    requires
        tree.wf(),
        tree.has(node as int),
    ensures
        rows_show(
            rows@,
            *tree,
            node,
            numbered(
                largest_anywhere(*tree, node, want_dirs).filter(explore::visible(*tree, needle@)),
            ),
            true,
        ),
{
    let candidates = collect_candidates(tree, node, want_dirs);
    let ranking = order::rank(candidates.as_slice());
    let ghost found = tree.preorder(node as int).filter(candidate(*tree, node, want_dirs));
    let ghost ids = largest_anywhere(*tree, node, want_dirs);
    let ghost p = explore::visible(*tree, needle@);
    proof {
        order::ranking_is_ranked(candidates@);
        seqs::filter_members(tree.preorder(node as int), candidate(*tree, node, want_dirs));
        assert forall|k: int| 0 <= k < ranking@.len() implies tree.has(
            (#[trigger] ranking@[k]).1 as int,
        ) && !tree.at(ranking@[k].1 as int).removed by {
            assert(ranking@.contains(ranking@[k]));
            let j = candidates@.index_of(ranking@[k]);
            assert(candidates@[j] == ranking@[k]);
            assert(found[j] == ranking@[k].1);
            assert(found.contains(found[j]));
            assert(candidate(*tree, node, want_dirs)(found[j]));
        }
    }
    let mut rows: Vec<TopRow> = Vec::new();
    let mut i: usize = 0;
    proof {
        seqs::filter_nothing::<u32>(p);
        assert(ids.take(0) =~= Seq::empty());
        assert(numbered(Seq::empty()) =~= Seq::empty());
    }
    while i < ranking.len() && i < TOP_CAP
        invariant
            tree.wf(),
            tree.has(node as int),
            i <= ranking.len(),
            i <= TOP_CAP,
            p == explore::visible(*tree, needle@),
            ids == ids_of(shares::first_n(ranking@, TOP_CAP as int)),
            forall|k: int|
                0 <= k < ranking@.len() ==> tree.has((#[trigger] ranking@[k]).1 as int)
                    && !tree.at(ranking@[k].1 as int).removed,
            rows@.len() <= i,
            rows_show(rows@, *tree, node, numbered(ids.take(i as int).filter(p)), true),
        decreases ranking.len() - i,
    {
        let id: u32 = ranking[i].1;
        assert(ids[i as int] == id);
        assert(tree.has(ranking@[i as int].1 as int));
        let name = tree.name(id);
        let ghost before = ids.take(i as int).filter(p);
        proof {
            seqs::filter_step(ids, i as int, p);
        }
        if explore::passes(name.as_str(), needle) {
            let parent = tree.arena[id as usize].parent;
            let parent_path = if parent == NO_PARENT {
                String::new()
            } else {
                tree.node_path(parent)
            };
            let row = make_row(
                tree,
                node,
                rows.len() as u32 + 1,
                id,
                name,
                parent_path,
                true,
            );
            let ghost old_rows = rows@;
            rows.push(row);
            proof {
                let list = numbered(before.push(id));
                assert forall|k: int| 0 <= k < rows@.len() implies (#[trigger] rows@[k]).shows(
                    *tree,
                    node,
                    list[k].0,
                    list[k].1,
                    true,
                ) by {
                    if k < old_rows.len() {
                        assert(rows@[k] == old_rows[k]);
                        assert(list[k] == numbered(before)[k]);
                    }
                }
            }
        }
        i += 1;
    }
    assert(ids.take(i as int) =~= ids);
    rows
}

/// Computes a ranking of at most [`TOP_CAP`] rows; a node that the tree does not
/// hold has none.
pub fn compute_top(tree: &Tree, node: u32, scope: TopScope, filter: &str) -> (r: TopSizes)
    requires
        tree.wf(),
    ensures
        r.generation == tree.generation,
        r.node == node,
        r.scope@ == scope.id(),
        if tree.has(node as int) {
            &&& r.total == tree.at(node as int).on_disk
            &&& rows_show(
                r.rows@,
                *tree,
                node,
                top_list(*tree, node, scope, explore::needle_of(filter@)),
                scope != TopScope::InFolder,
            )
        } else {
            r.total == 0 && r.rows@.len() == 0
        },
{
    if node as usize >= tree.len() {
        return TopSizes {
            generation: tree.generation,
            node,
            scope: scope.as_id().to_owned(),
            rows: Vec::new(),
            total: 0,
        };
    }
    let needle = explore::make_needle(filter);
    let rows = match scope {
        TopScope::InFolder => rank_in_folder(tree, node, &needle),
        TopScope::FilesAnywhere => rank_anywhere(tree, node, false, &needle),
        TopScope::FoldersAnywhere => rank_anywhere(tree, node, true, &needle),
    };
    TopSizes {
        generation: tree.generation,
        node,
        scope: scope.as_id().to_owned(),
        rows,
        total: tree.arena[node as usize].on_disk,
    }
}

/// The row's name holds the needle.
pub open spec fn row_passes(needle: Seq<char>) -> spec_fn(TopRow) -> bool {
    |r: TopRow| explore::name_passes(r.name@, needle)
}

/// The rows with consecutive ranks from 1.
pub open spec fn reranked(rows: Seq<TopRow>) -> Seq<TopRow> {
    Seq::new(rows.len(), |i: int| TopRow { rank: (i + 1) as u32, ..rows[i] })
}

/// A copy of a row with another rank.
fn with_rank(r: &TopRow, rank: u32) -> (c: TopRow)
    ensures
        c == (TopRow { rank, ..*r }),
{
    TopRow {
        rank,
        id: r.id,
        name: r.name.clone(),
        parent_path: r.parent_path.clone(),
        size: r.size,
        kind: r.kind.clone(),
        is_dir: r.is_dir,
        share: r.share,
        color: r.color,
    }
}

/// Narrows a finished ranking to the rows whose names hold the filter and ranks
/// these anew; without a filter (or a blank one) the ranking stays as it is.
pub fn apply_filter(tops: TopSizes, filter: Option<&str>) -> (r: TopSizes)
    requires
        tops.rows@.len() < u32::MAX,
    ensures
        match filter {
            None => r == tops,
            Some(f) => if explore::needle_of(f@).len() == 0 {
                r == tops
            } else {
                &&& r.rows@ == reranked(
                    tops.rows@.filter(row_passes(explore::needle_of(f@))),
                )
                &&& r == (TopSizes { rows: r.rows, ..tops })
            },
        },
{
    let f: &str = match filter {
        None => {
            return tops;
        },
        Some(f) => f,
    };
    let needle = explore::make_needle(f);
    if needle.len() == 0 {
        return tops;
    }
    let ghost p = row_passes(needle@);
    let mut rows: Vec<TopRow> = Vec::new();
    let mut i: usize = 0;
    proof {
        seqs::filter_nothing::<TopRow>(p);
        assert(tops.rows@.take(0) =~= Seq::empty());
        assert(reranked(Seq::empty()) =~= Seq::empty());
    }
    while i < tops.rows.len()
        invariant
            i <= tops.rows.len(),
            tops.rows@.len() < u32::MAX,
            p == row_passes(needle@),
            rows@.len() <= i,
            rows@ == reranked(tops.rows@.take(i as int).filter(p)),
        decreases tops.rows.len() - i,
    {
        let ghost before = tops.rows@.take(i as int).filter(p);
        proof {
            seqs::filter_step(tops.rows@, i as int, p);
        }
        if explore::passes(tops.rows[i].name.as_str(), &needle) {
            let row = with_rank(&tops.rows[i], rows.len() as u32 + 1);
            rows.push(row);
            assert(rows@ =~= reranked(before.push(tops.rows@[i as int])));
        }
        i += 1;
    }
    assert(tops.rows@.take(i as int) =~= tops.rows@);
    TopSizes { generation: tops.generation, node: tops.node, scope: tops.scope, rows, total: tops.total }
}

// ---------------------------------------------------------------------------
// Laws
// ---------------------------------------------------------------------------

/// A scope id parses back to its scope, and to no other.
pub proof fn scope_ids_round_trip(a: TopScope, b: TopScope)
    ensures
        a.id() == b.id() <==> a == b,
{
    TopScope::ids_differ(a, b);
}

/// Filtering a finished ranking of the "anywhere" scopes lists the same nodes
/// under the same ranks as ranking with the filter from the start.
pub proof fn filter_after_is_filter_before(t: Tree, node: u32, scope: TopScope, needle: Seq<char>)
    requires
        t.wf(),
        scope != TopScope::InFolder,
    ensures
        top_list(t, node, scope, needle) == numbered(
            largest_anywhere(t, node, scope == TopScope::FoldersAnywhere).filter(
                explore::visible(t, Seq::empty()),
            ).filter(explore::visible(t, needle)),
        ),
{
    let ids = largest_anywhere(t, node, scope == TopScope::FoldersAnywhere);
    filter_twice(
        ids,
        explore::visible(t, Seq::empty()),
        explore::visible(t, needle),
    );
}

/// Both rows show the same.
pub open spec fn same_row(a: TopRow, b: TopRow) -> bool {
    &&& a.rank == b.rank
    &&& a.id == b.id
    &&& a.name@ == b.name@
    &&& a.parent_path@ == b.parent_path@
    &&& a.size == b.size
    &&& a.kind@ == b.kind@
    &&& a.is_dir == b.is_dir
    &&& a.share == b.share
    &&& a.color == b.color
}

/// Both rankings show the same.
pub open spec fn same_tops(a: TopSizes, b: TopSizes) -> bool {
    &&& a.generation == b.generation
    &&& a.node == b.node
    &&& a.scope@ == b.scope@
    &&& a.total == b.total
    &&& a.rows@.len() == b.rows@.len()
    &&& forall|i: int| 0 <= i < a.rows@.len() ==> same_row(#[trigger] a.rows@[i], b.rows@[i])
}

/// The rows show the nodes, whatever their ranks.
spec fn rows_of(r: Seq<TopRow>, t: Tree, node: u32, ids: Seq<u32>) -> bool {
    &&& r.len() == ids.len()
    &&& forall|i: int|
        0 <= i < r.len() ==> (#[trigger] r[i]).shows(t, node, r[i].rank as int, ids[i], true)
}

/// The rows that pass are those of the nodes that pass.
proof fn rows_pass(r: Seq<TopRow>, t: Tree, node: u32, ids: Seq<u32>, needle: Seq<char>)
    requires
        rows_of(r, t, node, ids),
        forall|i: int| 0 <= i < ids.len() ==> !t.at(#[trigger] ids[i] as int).removed,
    ensures
        rows_of(r.filter(row_passes(needle)), t, node, ids.filter(explore::visible(t, needle))),
    decreases r.len(),
{
    reveal(Seq::filter);
    if r.len() > 0 {
        let fr = r.drop_last();
        let fi = ids.drop_last();
        let p = row_passes(needle);
        let q = explore::visible(t, needle);
        assert(r[r.len() - 1].shows(t, node, r.last().rank as int, ids.last(), true));
        assert(!t.at(ids[ids.len() - 1] as int).removed);
        assert forall|i: int| 0 <= i < fr.len() implies (#[trigger] fr[i]).shows(
            t,
            node,
            fr[i].rank as int,
            fi[i],
            true,
        ) by {
            assert(r[i].shows(t, node, r[i].rank as int, ids[i], true));
        }
        assert forall|i: int| 0 <= i < fi.len() implies !t.at(#[trigger] fi[i] as int).removed by {
            assert(fi[i] == ids[i]);
        }
        rows_pass(fr, t, node, fi, needle);
        let a = fr.filter(p);
        let b = fi.filter(q);
        assert(p(r.last()) == q(ids.last()));
        if p(r.last()) {
            let wa = a.push(r.last());
            let wb = b.push(ids.last());
            assert forall|i: int| 0 <= i < wa.len() implies (#[trigger] wa[i]).shows(
                t,
                node,
                wa[i].rank as int,
                wb[i],
                true,
            ) by {
                if i < a.len() {
                    assert(a[i].shows(t, node, a[i].rank as int, b[i], true));
                }
            }
        }
    }
}

/// Filtering a finished ranking of the "anywhere" scopes gives what ranking with
/// the filter from the start gives, row for row and field for field.
pub proof fn filtering_later_is_filtering_first(
    tree: &Tree,
    node: u32,
    scope: TopScope,
    f: &str,
    tops: TopSizes,
    later: TopSizes,
    first: TopSizes,
)
    requires
        tree.wf(),
        scope != TopScope::InFolder,
        call_ensures(compute_top, (tree, node, scope, ""), tops),
        call_ensures(apply_filter, (tops, Some(f)), later),
        call_ensures(compute_top, (tree, node, scope, f), first),
    ensures
        same_tops(later, first),
{
    let t = *tree;
    let needle = explore::needle_of(f@);
    reveal_strlit("");
    let none = explore::needle_of(""@);
    assert(none =~= Seq::empty());
    if t.has(node as int) {
        let ids = largest_anywhere(t, node, scope == TopScope::FoldersAnywhere);
        let shown = ids.filter(explore::visible(t, Seq::empty()));
        let want = ids.filter(explore::visible(t, needle));
        filter_after_is_filter_before(t, node, scope, needle);
        filter_after_is_filter_before(t, node, scope, none);
        let q = explore::visible(t, needle);
        filter_twice(ids, explore::visible(t, Seq::empty()), q);
        seqs::filter_members(ids, explore::visible(t, Seq::empty()));
        assert forall|i: int| 0 <= i < shown.len() implies !t.at(
            #[trigger] shown[i] as int,
        ).removed by {
            assert(shown.contains(shown[i]));
        }
        assert(top_list(t, node, scope, none) == numbered(shown));
        assert(top_list(t, node, scope, needle) == numbered(want));
        assert(rows_of(tops.rows@, t, node, shown)) by {
            assert forall|i: int| 0 <= i < shown.len() implies (#[trigger] tops.rows@[i]).shows(
                t,
                node,
                tops.rows@[i].rank as int,
                shown[i],
                true,
            ) by {
                assert(tops.rows@[i].shows(t, node, numbered(shown)[i].0, numbered(shown)[i].1, true));
            }
        }
        rows_pass(tops.rows@, t, node, shown, needle);
        ids.lemma_filter_len(explore::visible(t, Seq::empty()));
        let kept = tops.rows@.filter(row_passes(needle));
        tops.rows@.lemma_filter_len(row_passes(needle));
        assert(later.rows@.len() == want.len()) by {
            if needle.len() == 0 {
                assert(needle =~= Seq::empty());
                assert(later == tops);
            } else {
                assert(later.rows@ == reranked(kept));
            }
        }
        assert forall|i: int| 0 <= i < later.rows@.len() implies same_row(
            #[trigger] later.rows@[i],
            first.rows@[i],
        ) by {
            assert(first.rows@[i].shows(t, node, numbered(want)[i].0, numbered(want)[i].1, true));
            if needle.len() == 0 {
                assert(needle =~= Seq::empty());
                assert(tops.rows@[i].shows(t, node, numbered(shown)[i].0, numbered(shown)[i].1, true));
            } else {
                assert(kept[i].shows(t, node, kept[i].rank as int, want[i], true));
                assert(later.rows@[i] == (TopRow { rank: (i + 1) as u32, ..kept[i] }));
            }
        }
    } else if needle.len() > 0 {
        tops.rows@.lemma_filter_len(row_passes(needle));
    }
}

/// Keeping by a wider test first changes nothing.
proof fn filter_twice(s: Seq<u32>, wide: spec_fn(u32) -> bool, narrow: spec_fn(u32) -> bool)
    requires
        forall|x: u32| #[trigger] narrow(x) ==> wide(x),
    ensures
        s.filter(wide).filter(narrow) == s.filter(narrow),
    decreases s.len(),
{
    reveal(Seq::filter);
    if s.len() > 0 {
        let rest = s.drop_last();
        filter_twice(rest, wide, narrow);
        let x = s.last();
        if wide(x) {
            assert(s.filter(wide) == rest.filter(wide).push(x));
            assert(rest.filter(wide).push(x).drop_last() =~= rest.filter(wide));
        }
    }
}

/// Filtering a second time with the same filter changes nothing.
pub proof fn filter_is_idempotent(rows: Seq<TopRow>, needle: Seq<char>)
    ensures
        reranked(reranked(rows.filter(row_passes(needle))).filter(row_passes(needle)))
            == reranked(rows.filter(row_passes(needle))),
{
    let p = row_passes(needle);
    let once = reranked(rows.filter(p));
    seqs::filter_members(rows, p);
    assert forall|i: int| 0 <= i < once.len() implies p(#[trigger] once[i]) by {
        let f = rows.filter(p);
        assert(f.contains(f[i]));
    }
    keep_all(once, p);
    assert(reranked(once) =~= once);
}

proof fn keep_all(s: Seq<TopRow>, p: spec_fn(TopRow) -> bool)
    requires
        forall|i: int| 0 <= i < s.len() ==> p(#[trigger] s[i]),
    ensures
        s.filter(p) == s,
    decreases s.len(),
{
    reveal(Seq::filter);
    if s.len() > 0 {
        let rest = s.drop_last();
        assert forall|i: int| 0 <= i < rest.len() implies p(#[trigger] rest[i]) by {
            assert(rest[i] == s[i]);
        }
        keep_all(rest, p);
        assert(s[s.len() - 1] == s.last());
        assert(rest.push(s.last()) =~= s);
    }
}

/// The "anywhere" rankings stand largest first, rank from 1 without gaps, and
/// never list the ranked folder itself among folders.
pub proof fn ranking_holds(t: Tree, node: u32, scope: TopScope, needle: Seq<char>)
    requires
        t.wf(),
        scope != TopScope::InFolder,
    ensures
        top_list(t, node, scope, needle).len() <= TOP_CAP,
        forall|i: int|
            0 <= i < top_list(t, node, scope, needle).len() ==> (#[trigger] top_list(
                t,
                node,
                scope,
                needle,
            )[i]).0 == i + 1,
        scope == TopScope::FoldersAnywhere ==> forall|i: int|
            0 <= i < top_list(t, node, scope, needle).len() ==> (#[trigger] top_list(
                t,
                node,
                scope,
                needle,
            )[i]).1 != node,
        forall|i: int, j: int|
            0 <= i < j < top_list(t, node, scope, needle).len() ==> t.at(
                (#[trigger] top_list(t, node, scope, needle)[i]).1 as int,
            ).on_disk >= t.at((#[trigger] top_list(t, node, scope, needle)[j]).1 as int).on_disk,
{
    let want = scope == TopScope::FoldersAnywhere;
    let ids = largest_anywhere(t, node, want);
    let p = explore::visible(t, needle);
    ids.lemma_filter_len(p);
    seqs::filter_members(ids, p);
    let found = t.preorder(node as int).filter(candidate(t, node, want));
    seqs::filter_members(t.preorder(node as int), candidate(t, node, want));
    order::ranking_is_ranked(t.sized(found));
    let r = order::ranking(t.sized(found));
    let list = top_list(t, node, scope, needle);
    assert forall|i: int| 0 <= i < list.len() && want implies (#[trigger] list[i]).1 != node by {
        let f = ids.filter(p);
        assert(f.contains(f[i]));
        assert(ids.contains(f[i]));
        let k = ids.index_of(f[i]);
        assert(ids[k] == r[k].1);
        assert(r.contains(r[k]));
        let j = t.sized(found).index_of(r[k]);
        assert(t.sized(found)[j] == r[k]);
        assert(found[j] == r[k].1);
        assert(found.contains(found[j]));
        assert(candidate(t, node, want)(found[j]));
    }
    assert forall|k: int| 0 <= k < r.len() implies (#[trigger] r[k]).0 == t.at(
        r[k].1 as int,
    ).on_disk by {
        assert(r.contains(r[k]));
        let j = t.sized(found).index_of(r[k]);
        assert(t.sized(found)[j] == r[k]);
    }
    assert forall|i: int, j: int| 0 <= i < j < ids.len() implies t.at(
        #[trigger] ids[i] as int,
    ).on_disk >= t.at(#[trigger] ids[j] as int).on_disk by {
        assert(ids[i] == r[i].1 && ids[j] == r[j].1);
        assert(order::before(r[i], r[j]));
    }
    explore::filter_keeps_order(t, ids, p);
}

/// An unfiltered ranking of the "anywhere" scopes lists live nodes with bytes at
/// any depth below the folder, files or folders as asked, largest first and equal
/// ones by their ids, ranked from 1; a ranked folder is no row of its own. What
/// is missing stands behind two hundred rows that are no smaller.
pub proof fn the_largest_nodes_at_any_depth_are_ranked(
    tree: &Tree,
    node: u32,
    scope: TopScope,
    r: TopSizes,
)
    requires
        tree.wf(),
        tree.has(node as int),
        scope is FilesAnywhere || scope is FoldersAnywhere,
        call_ensures(compute_top, (tree, node, scope, ""), r),
    ensures
        r.rows@.len() <= 200,
        r.total == tree.arena@[node as int].on_disk,
        forall|i: int|
            0 <= i < r.rows@.len() ==> {
                let n = tree.arena@[(#[trigger] r.rows@[i]).id as int];
                &&& r.rows@[i].rank == i + 1
                &&& r.rows@[i].id < tree.arena@.len()
                &&& tree.under(r.rows@[i].id as int, node as int)
                &&& n.dir == (scope is FoldersAnywhere)
                &&& !n.removed
                &&& n.on_disk > 0
                &&& n.dir ==> r.rows@[i].id != node
                &&& r.rows@[i].size == n.on_disk
                &&& r.rows@[i].is_dir == n.dir
                &&& r.rows@[i].name@ == tree.shown(r.rows@[i].id as int)
                &&& r.rows@[i].share.part == n.on_disk
                &&& r.rows@[i].share.whole == tree.arena@[node as int].on_disk
                &&& n.dir ==> r.rows@[i].color == 0x93C5FD
                &&& !n.dir ==> r.rows@[i].color == tree.palette.styles@[n.kind.index()].color
                    && r.rows@[i].kind@ == tree.palette.styles@[n.kind.index()].label@
                &&& r.rows@[i].id > 0 ==> r.rows@[i].parent_path@ == tree.path_of(n.parent as int)
            },
        forall|i: int, j: int|
            0 <= i < j < r.rows@.len() ==> (#[trigger] r.rows@[i]).size > (
            #[trigger] r.rows@[j]).size || (r.rows@[i].size == r.rows@[j].size && r.rows@[i].id
                < r.rows@[j].id),
        forall|x: u32|
            #![trigger tree.under(x as int, node as int)]
            tree.under(x as int, node as int) && tree.arena@[x as int].dir == (
            scope is FoldersAnywhere) && !tree.arena@[x as int].removed
                && tree.arena@[x as int].on_disk > 0 && (tree.arena@[x as int].dir ==> x != node)
                ==> {
                ||| exists|i: int| 0 <= i < r.rows@.len() && (#[trigger] r.rows@[i]).id == x
                ||| r.rows@.len() == 200 && forall|i: int|
                    0 <= i < 200 ==> (#[trigger] r.rows@[i]).size >= tree.arena@[x as int].on_disk
            },
{
    let t = *tree;
    let want = scope is FoldersAnywhere;
    reveal_strlit("");
    let none = explore::needle_of(""@);
    assert(none =~= Seq::empty());
    let p = explore::visible(t, none);
    let c = candidate(t, node, want);
    rollup::ranked_below(t, node, c);
    let rank = order::ranking(t.sized(t.preorder(node as int).filter(c)));
    let ids = largest_anywhere(t, node, want);
    assert forall|k: int| 0 <= k < ids.len() implies p(#[trigger] ids[k]) && ids[k]
        == rank[k].1 by {
        assert(c(rank[k].1));
    }
    keep_all_ids(ids, p);
    assert(top_list(t, node, scope, none) == numbered(ids));
    assert forall|i: int| 0 <= i < r.rows@.len() implies {
        &&& (#[trigger] r.rows@[i]).shows(t, node, i + 1, ids[i], true)
        &&& t.under(ids[i] as int, node as int)
        &&& c(ids[i])
        &&& t.has(ids[i] as int)
        &&& rank[i] == (t.at(ids[i] as int).on_disk, ids[i])
    } by {
        assert(numbered(ids)[i] == (i + 1, ids[i]));
        assert(c(rank[i].1));
    }
    assert forall|i: int| 0 <= i < r.rows@.len() && (#[trigger] r.rows@[i]).id
        > 0 implies r.rows@[i].parent_path@ == tree.path_of(
        tree.arena@[r.rows@[i].id as int].parent as int,
    ) by {
        assert(t.parent_wf(ids[i] as int));
    }
    assert forall|i: int, j: int| 0 <= i < j < r.rows@.len() implies (#[trigger] r.rows@[i]).size
        > (#[trigger] r.rows@[j]).size || (r.rows@[i].size == r.rows@[j].size && r.rows@[i].id
        < r.rows@[j].id) by {
        assert(order::before(rank[i], rank[j]));
        assert(rank[i] != rank[j]);
    }
    assert forall|x: u32|
        #![trigger tree.under(x as int, node as int)]
        tree.under(x as int, node as int) && tree.arena@[x as int].dir == want
            && !tree.arena@[x as int].removed && tree.arena@[x as int].on_disk > 0 && (
        tree.arena@[x as int].dir ==> x != node) implies {
        ||| exists|i: int| 0 <= i < r.rows@.len() && (#[trigger] r.rows@[i]).id == x
        ||| r.rows@.len() == 200 && forall|i: int|
            0 <= i < 200 ==> (#[trigger] r.rows@[i]).size >= tree.arena@[x as int].on_disk
    } by {
        assert(c(x));
        let e = (t.at(x as int).on_disk, x);
        assert(rank.contains(e));
        let k = rank.index_of(e);
        assert(rank[k] == e);
        if k < 200 {
            assert(ids[k] == x);
            assert(r.rows@[k].id == x);
        } else {
            assert(r.rows@.len() == 200);
            assert forall|i: int| 0 <= i < 200 implies (#[trigger] r.rows@[i]).size
                >= tree.arena@[x as int].on_disk by {
                assert(order::before(rank[i], rank[k]));
            }
        }
    }
}

proof fn keep_all_ids(s: Seq<u32>, p: spec_fn(u32) -> bool)
    requires
        forall|i: int| 0 <= i < s.len() ==> p(#[trigger] s[i]),
    ensures
        s.filter(p) == s,
    decreases s.len(),
{
    reveal(Seq::filter);
    if s.len() > 0 {
        let rest = s.drop_last();
        assert forall|i: int| 0 <= i < rest.len() implies p(#[trigger] rest[i]) by {
            assert(rest[i] == s[i]);
        }
        keep_all_ids(rest, p);
        assert(s[s.len() - 1] == s.last());
        assert(rest.push(s.last()) =~= s);
    }
}

proof fn in_folder_places(t: Tree, list: Seq<u32>, needle: Seq<char>, n: nat)
    requires
        n <= list.len(),
    ensures
        forall|k: int|
            0 <= k < in_folder(t, list, needle, n).len() ==> {
                let e = #[trigger] in_folder(t, list, needle, n)[k];
                1 <= e.0 <= n && e.1 == list[e.0 - 1] && listed(t, needle, e.1)
            },
        forall|a: int, b: int|
            0 <= a < b < in_folder(t, list, needle, n).len() ==> (#[trigger] in_folder(
                t,
                list,
                needle,
                n,
            )[a]).0 < (#[trigger] in_folder(t, list, needle, n)[b]).0,
        forall|i: int|
            0 <= i < n && listed(t, needle, #[trigger] list[i]) ==> in_folder(
                t,
                list,
                needle,
                n,
            ).contains((i + 1, list[i])),
    decreases n,
{
    if n > 0 {
        in_folder_places(t, list, needle, (n - 1) as nat);
        let rest = in_folder(t, list, needle, (n - 1) as nat);
        let whole = in_folder(t, list, needle, n);
        assert forall|k: int| 0 <= k < whole.len() implies {
            let e = #[trigger] whole[k];
            1 <= e.0 <= n && e.1 == list[e.0 - 1] && listed(t, needle, e.1)
        } by {
            if k < rest.len() {
                assert(whole[k] == rest[k]);
            }
        }
        assert forall|a: int, b: int| 0 <= a < b < whole.len() implies (#[trigger] whole[a]).0 < (
        #[trigger] whole[b]).0 by {
            assert(whole[a] == rest[a]);
            if b < rest.len() {
                assert(whole[b] == rest[b]);
            }
        }
        assert forall|i: int| 0 <= i < n && listed(
            t,
            needle,
            #[trigger] list[i],
        ) implies whole.contains((i + 1, list[i])) by {
            if i < n - 1 {
                let q = rest.index_of((i + 1, list[i]));
                assert(whole[q] == (i + 1, list[i]));
            } else {
                assert(whole[rest.len() as int] == (i + 1, list[i]));
            }
        }
    }
}

/// An unfiltered ranking in a folder lists its live children with bytes in child
/// order, each under its place among all children and without a path; what is
/// missing stands behind two hundred rows.
pub proof fn children_are_ranked_by_place(tree: &Tree, node: u32, r: TopSizes)
    requires
        tree.wf(),
        tree.has(node as int),
        call_ensures(compute_top, (tree, node, TopScope::InFolder, ""), r),
    ensures
        r.rows@.len() <= 200,
        r.total == tree.arena@[node as int].on_disk,
        forall|i: int|
            0 <= i < r.rows@.len() ==> {
                let n = tree.arena@[(#[trigger] r.rows@[i]).id as int];
                let k = tree.kids@[node as int]@;
                &&& 1 <= r.rows@[i].rank <= k.len()
                &&& r.rows@[i].id == k[r.rows@[i].rank - 1]
                &&& !n.removed
                &&& n.on_disk > 0
                &&& r.rows@[i].size == n.on_disk
                &&& r.rows@[i].is_dir == n.dir
                &&& r.rows@[i].name@ == tree.shown(r.rows@[i].id as int)
                &&& r.rows@[i].parent_path@.len() == 0
                &&& r.rows@[i].share.part == n.on_disk
                &&& r.rows@[i].share.whole == tree.arena@[node as int].on_disk
                &&& n.dir ==> r.rows@[i].color == 0x93C5FD
                &&& !n.dir ==> r.rows@[i].color == tree.palette.styles@[n.kind.index()].color
                    && r.rows@[i].kind@ == tree.palette.styles@[n.kind.index()].label@
            },
        forall|i: int, j: int|
            0 <= i < j < r.rows@.len() ==> (#[trigger] r.rows@[i]).rank < (
            #[trigger] r.rows@[j]).rank,
        forall|c: int|
            0 <= c < tree.kids@[node as int]@.len() && !tree.arena@[
                (#[trigger] tree.kids@[node as int]@[c]) as int
            ].removed && tree.arena@[tree.kids@[node as int]@[c] as int].on_disk > 0 ==> {
                ||| exists|i: int|
                    0 <= i < r.rows@.len() && (#[trigger] r.rows@[i]).rank == c + 1
                ||| r.rows@.len() == 200 && r.rows@[199].rank <= c
            },
{
    let t = *tree;
    reveal_strlit("");
    let none = explore::needle_of(""@);
    assert(none =~= Seq::empty());
    let k = t.kids_of(node as int);
    let all = in_folder(t, k, none, k.len());
    let list = top_list(t, node, TopScope::InFolder, none);
    in_folder_places(t, k, none, k.len());
    assert(t.kids_wf(node as int));
    assert forall|i: int| 0 <= i < r.rows@.len() implies {
        let e = all[i];
        &&& (#[trigger] r.rows@[i]).shows(t, node, e.0, e.1, false)
        &&& 1 <= e.0 <= k.len()
        &&& e.1 == k[e.0 - 1]
        &&& listed(t, none, e.1)
        &&& r.rows@[i].rank == e.0
    } by {
        assert(list[i] == all[i]);
    }
    assert forall|i: int, j: int| 0 <= i < j < r.rows@.len() implies (#[trigger] r.rows@[i]).rank
        < (#[trigger] r.rows@[j]).rank by {
        assert(all[i].0 < all[j].0);
    }
    assert forall|c: int|
        0 <= c < k.len() && !tree.arena@[(#[trigger] tree.kids@[node as int]@[c]) as int].removed
            && tree.arena@[tree.kids@[node as int]@[c] as int].on_disk > 0 implies {
        ||| exists|i: int| 0 <= i < r.rows@.len() && (#[trigger] r.rows@[i]).rank == c + 1
        ||| r.rows@.len() == 200 && r.rows@[199].rank <= c
    } by {
        assert(k[c] == tree.kids@[node as int]@[c]);
        assert(listed(t, none, k[c]));
        assert(all.contains((c + 1, k[c])));
        let q = all.index_of((c + 1, k[c]));
        assert(all[q] == (c + 1, k[c]));
        if q < 200 {
            assert(r.rows@[q].rank == c + 1);
        } else {
            assert(all[199].0 < all[q].0);
            assert(r.rows@[199].rank == all[199].0);
        }
    }
}

/// A filter keeps exactly the rows whose name holds it, without regard to ASCII
/// case or to blanks around it, in their order and ranked anew from 1; a blank
/// one keeps everything as it is.
pub proof fn a_filter_keeps_the_rows_that_hold_it(tops: TopSizes, f: &str, r: TopSizes) -> (at: Seq<
    int,
>)
    requires
        tops.rows@.len() < u32::MAX,
        call_ensures(apply_filter, (tops, Some(f)), r),
    ensures
        text::trim(f@).len() == 0 ==> r == tops,
        text::trim(f@).len() > 0 ==> {
            &&& r.generation == tops.generation && r.node == tops.node && r.scope == tops.scope
                && r.total == tops.total
            &&& at.len() == r.rows@.len()
            &&& forall|a: int, b: int| 0 <= a < b < at.len() ==> #[trigger] at[a] < #[trigger] at[b]
            &&& forall|k: int|
                0 <= k < at.len() ==> {
                    &&& 0 <= #[trigger] at[k] < tops.rows@.len()
                    &&& r.rows@[k] == (TopRow { rank: (k + 1) as u32, ..tops.rows@[at[k]] })
                }
            &&& forall|i: int|
                0 <= i < tops.rows@.len() ==> (at.contains(i) <==> {
                    let name = text::lower((#[trigger] tops.rows@[i]).name@);
                    exists|j: int|
                        0 <= j <= name.len() - text::trim(f@).len() && #[trigger] name.subrange(
                            j,
                            j + text::trim(f@).len(),
                        ) == text::lower(text::trim(f@))
                })
        },
{
    let needle = explore::needle_of(f@);
    let p = row_passes(needle);
    let at = seqs::filter_places(tops.rows@, p);
    if needle.len() > 0 {
        assert forall|i: int| 0 <= i < tops.rows@.len() implies (at.contains(i) <==> {
            let name = text::lower((#[trigger] tops.rows@[i]).name@);
            exists|j: int|
                0 <= j <= name.len() - text::trim(f@).len() && #[trigger] name.subrange(
                    j,
                    j + text::trim(f@).len(),
                ) == text::lower(text::trim(f@))
        }) by {
            let name = text::lower(tops.rows@[i].name@);
            assert(at.contains(i) <==> p(tops.rows@[i]));
            if text::has_sub(name, needle) {
                let j = choose|j: int| text::stands_at(name, needle, j);
                assert(name.subrange(j, j + text::trim(f@).len()) == needle);
            }
            if exists|j: int|
                0 <= j <= name.len() - text::trim(f@).len() && #[trigger] name.subrange(
                    j,
                    j + text::trim(f@).len(),
                ) == text::lower(text::trim(f@)) {
                let j = choose|j: int|
                    0 <= j <= name.len() - text::trim(f@).len() && #[trigger] name.subrange(
                        j,
                        j + text::trim(f@).len(),
                    ) == text::lower(text::trim(f@));
                assert(text::stands_at(name, needle, j));
            }
        }
        assert forall|k: int| 0 <= k < at.len() implies {
            &&& 0 <= #[trigger] at[k] < tops.rows@.len()
            &&& r.rows@[k] == (TopRow { rank: (k + 1) as u32, ..tops.rows@[at[k]] })
        } by {}
    }
    at
}

/// A scope goes by its id, and its id alone is read back as it.
pub proof fn scopes_read_back(x: TopScope, id: &'static str, s: &str, r: Option<TopScope>)
    requires
        call_ensures(TopScope::as_id, (x,), id),
        call_ensures(TopScope::parse, (s,), r),
    ensures
        x == TopScope::InFolder ==> id@ == "in-folder"@,
        x == TopScope::FilesAnywhere ==> id@ == "files-anywhere"@,
        x == TopScope::FoldersAnywhere ==> id@ == "folders-anywhere"@,
        s@ == id@ <==> r == Some(x),
{
}

} // verus!
