//! Quick Wins: junk categories computed from the already-built tree.
//!
//! Each known location is resolved to nodes by descending the tree when it lies
//! inside the scanned subtree, expanding `*` over one level. A category never
//! counts something nested inside its own match, and holds at most
//! [`CATEGORY_CAP`] items.
use crate::catalog;
use crate::catalog::{Entry, HostOs, Pattern};
use crate::locate;
use crate::names;
use crate::rollup;
use crate::seqs;
use crate::text;
use crate::tree::{Tree, NO_PARENT};
use vstd::prelude::*;

verus! {

/// Most items that one category holds.
pub const CATEGORY_CAP: usize = 400;

/// Least size of a standalone `.vhdx` in the VM-disks row (1 GB).
pub const VM_DISK_MIN: u64 = 1073741824;

/// Least size of large media (10 MB).
pub const LARGE_MEDIA_MIN: u64 = 10485760;

/// A Quick Wins row.
#[derive(Clone, Debug)]
pub struct QuickWinCategory {
    /// Stable id.
    pub id: &'static str,
    /// Row title.
    pub title: &'static str,
    /// Icon tag.
    pub icon: &'static str,
    /// Node ids matched (at most [`CATEGORY_CAP`]).
    pub items: Vec<u32>,
    /// Total on-disk bytes of matched items.
    pub size: u64,
    /// Review-only rows refuse "Add all".
    pub review_only: bool,
    /// Context-menu extra for special rows.
    pub extra: Option<&'static str>,
}

// ---------------------------------------------------------------------------
// Pattern matching
// ---------------------------------------------------------------------------

/// A live node whose name matches the segment.
pub open spec fn takes(t: Tree, seg: Seq<char>) -> spec_fn(u32) -> bool {
    |c: u32| !t.at(c as int).removed && (seg == seq!['*'] || names::same_ci(t.units(c as int), seg))
}

/// The matching children of each node of a list, in order.
pub open spec fn step(t: Tree, current: Seq<u32>, seg: Seq<char>) -> Seq<u32>
    decreases current.len(),
{
    if current.len() == 0 {
        Seq::empty()
    } else {
        step(t, current.drop_last(), seg) + t.kids_of(current.last() as int).filter(takes(t, seg))
    }
}

/// What is reached from a list of nodes by matching one segment after another.
pub open spec fn expand(t: Tree, current: Seq<u32>, segs: Seq<Seq<char>>) -> Seq<u32>
    decreases segs.len(),
{
    if segs.len() == 0 {
        current
    } else {
        expand(t, step(t, current, segs[0]), segs.drop_first())
    }
}

/// Not the scan root.
pub open spec fn not_root(t: Tree) -> spec_fn(u32) -> bool {
    |id: u32| id != t.root
}

/// The nodes at `segs` below the location `root`; none where the location lies
/// outside the scanned subtree.
pub open spec fn matched(t: Tree, root: Seq<char>, segs: Seq<Seq<char>>) -> Seq<u32> {
    match t.located(locate::normal(root)) {
        Some(start) => expand(t, seq![start], segs).filter(not_root(t)),
        None => Seq::empty(),
    }
}

/// Every id belongs to a node.
pub open spec fn all_nodes(t: Tree, ids: Seq<u32>) -> bool {
    forall|i: int| 0 <= i < ids.len() ==> t.has(#[trigger] ids[i] as int)
}

proof fn expand_nothing(t: Tree, segs: Seq<Seq<char>>)
    ensures
        expand(t, Seq::empty(), segs) == Seq::<u32>::empty(),
    decreases segs.len(),
{
    if segs.len() > 0 {
        expand_nothing(t, segs.drop_first());
    }
}

/// Whether a segment is the wildcard.
fn is_star(seg: &str) -> (r: bool)
    ensures
        r == (seg@ == seq!['*']),
{
    let cs = text::chars_of(seg);
    let r = cs.len() == 1 && cs[0] == '*';
    if r {
        assert(seg@ =~= seq!['*']);
    }
    r
}

/// The matching children of each node of a list.
fn match_step(tree: &Tree, current: &Vec<u32>, seg: &str) -> (next: Vec<u32>)
    requires
        tree.wf(),
    ensures
        next@ == step(*tree, current@, seg@),
        all_nodes(*tree, next@),
{
    let star = is_star(seg);
    let mut next: Vec<u32> = Vec::new();
    let mut i: usize = 0;
    while i < current.len()
        invariant
            tree.wf(),
            star == (seg@ == seq!['*']),
            i <= current.len(),
            next@ == step(*tree, current@.take(i as int), seg@),
            all_nodes(*tree, next@),
        decreases current.len() - i,
    {
        let cur: u32 = current[i];
        let list = tree.children_sorted(cur);
        let ghost done = next@;
        let mut j: usize = 0;
        proof {
            seqs::filter_nothing::<u32>(takes(*tree, seg@));
            assert(list@.take(0) =~= Seq::empty());
            assert(done + Seq::<u32>::empty() =~= done);
            if tree.has(cur as int) {
                assert(tree.kids_wf(cur as int));
            }
        }
        while j < list.len()
            invariant
                tree.wf(),
                star == (seg@ == seq!['*']),
                list@ == tree.kids_of(cur as int),
                tree.has(cur as int) ==> tree.kids_wf(cur as int),
                j <= list.len(),
                next@ == done + list@.take(j as int).filter(takes(*tree, seg@)),
                all_nodes(*tree, next@),
            decreases list.len() - j,
        {
            let c: u32 = list[j];
            proof {
                seqs::filter_step(list@, j as int, takes(*tree, seg@));
                assert(tree.kids_of(cur as int)[j as int] == c);
            }
            let ghost before = next@;
            if !tree.arena[c as usize].removed && (star || names::eq_ci(tree.name_u16(c), seg)) {
                next.push(c);
                assert(takes(*tree, seg@)(c));
                assert(before.push(c) =~= done + list@.take(j as int).filter(
                    takes(*tree, seg@),
                ).push(c));
            }
            j += 1;
        }
        proof {
            assert(list@.take(j as int) =~= list@);
            assert(current@.take(i + 1).drop_last() =~= current@.take(i as int));
            assert(current@.take(i + 1).last() == cur);
        }
        i += 1;
    }
    assert(current@.take(i as int) =~= current@);
    next
}

/// Keeps the ids other than the scan root's.
fn drop_root(tree: &Tree, ids: &Vec<u32>) -> (r: Vec<u32>)
    requires
        all_nodes(*tree, ids@),
    ensures
        r@ == ids@.filter(not_root(*tree)),
        all_nodes(*tree, r@),
{
    let mut out: Vec<u32> = Vec::new();
    let mut i: usize = 0;
    proof {
        seqs::filter_nothing::<u32>(not_root(*tree));
        assert(ids@.take(0) =~= Seq::empty());
    }
    while i < ids.len()
        invariant
            i <= ids.len(),
            all_nodes(*tree, ids@),
            all_nodes(*tree, out@),
            out@ == ids@.take(i as int).filter(not_root(*tree)),
        decreases ids.len() - i,
    {
        proof {
            seqs::filter_step(ids@, i as int, not_root(*tree));
        }
        if ids[i] != tree.root {
            out.push(ids[i]);
        }
        i += 1;
    }
    assert(ids@.take(i as int) =~= ids@);
    out
}

/// Matches an absolute location and segments (with `*`) against the tree.
/// Returns the nodes of the final segment that lie under the location.
pub fn match_pattern(tree: &Tree, root: &str, segments: &[&str]) -> (r: Vec<u32>)
    requires
        tree.wf(),
    ensures
        r@ == matched(*tree, root@, text::texts(segments@)),
        all_nodes(*tree, r@),
{
    let root_norm = locate::normalize(root);
    let start = match locate::find_node_by_path(tree, root_norm.as_str()) {
        Some(id) => id,
        None => {
            return Vec::new();
        },
    };
    proof {
        locate::located_is_node(*tree, tree.roots@, root_norm@);
    }
    let mut current: Vec<u32> = Vec::new();
    current.push(start);
    assert(current@ =~= seq![start]);
    let ghost segs = text::texts(segments@);
    assert(segs.skip(0) =~= segs);
    let mut i: usize = 0;
    while i < segments.len() && current.len() > 0
        invariant
            tree.wf(),
            i <= segments.len(),
            segs == text::texts(segments@),
            all_nodes(*tree, current@),
            expand(*tree, seq![start], segs) == expand(*tree, current@, segs.skip(i as int)),
        decreases segments.len() - i,
    {
        assert(segs.skip(i as int)[0] == segments@[i as int]@);
        assert(segs.skip(i as int).drop_first() =~= segs.skip(i + 1));
        current = match_step(tree, &current, segments[i]);
        i += 1;
    }
    proof {
        if current@.len() == 0 {
            expand_nothing(*tree, segs.skip(i as int));
            assert(current@ =~= Seq::empty());
        } else {
            assert(segs.skip(i as int) =~= Seq::empty());
        }
    }
    drop_root(tree, &current)
}

proof fn step_keeps_parts(t: Tree, a: Seq<u32>, b: Seq<u32>, seg: Seq<char>, more: Seq<char>)
    requires
        seqs::is_part(a, b),
        seg == more || more == seq!['*'],
    ensures
        seqs::is_part(step(t, a, seg), step(t, b, more)),
    decreases b.len(),
{
    if a.len() > 0 {
        let front = step(t, b.drop_last(), more);
        let kids = t.kids_of(b.last() as int);
        if a.last() == b.last() && seqs::is_part(a.drop_last(), b.drop_last()) {
            step_keeps_parts(t, a.drop_last(), b.drop_last(), seg, more);
            seqs::part_of_itself(kids);
            seqs::part_filtered(kids, kids, takes(t, seg), takes(t, more));
            seqs::parts_join(
                step(t, a.drop_last(), seg),
                front,
                kids.filter(takes(t, seg)),
                kids.filter(takes(t, more)),
            );
        } else {
            step_keeps_parts(t, a, b.drop_last(), seg, more);
            seqs::part_of_more(step(t, a, seg), front, kids.filter(takes(t, more)));
        }
    }
}

proof fn expand_keeps_parts(
    t: Tree,
    a: Seq<u32>,
    b: Seq<u32>,
    segs: Seq<Seq<char>>,
    more: Seq<Seq<char>>,
)
    requires
        seqs::is_part(a, b),
        segs.len() == more.len(),
        forall|i: int|
            0 <= i < segs.len() ==> #[trigger] more[i] == segs[i] || more[i] == seq!['*'],
    ensures
        seqs::is_part(expand(t, a, segs), expand(t, b, more)),
    decreases segs.len(),
{
    if segs.len() > 0 {
        assert(more[0] == segs[0] || more[0] == seq!['*']);
        step_keeps_parts(t, a, b, segs[0], more[0]);
        assert forall|i: int| 0 <= i < segs.len() - 1 implies #[trigger] more.drop_first()[i]
            == segs.drop_first()[i] || more.drop_first()[i] == seq!['*'] by {
            assert(more[i + 1] == segs[i + 1] || more[i + 1] == seq!['*']);
        }
        expand_keeps_parts(
            t,
            step(t, a, segs[0]),
            step(t, b, more[0]),
            segs.drop_first(),
            more.drop_first(),
        );
    }
}

/// A wildcard in place of a segment only adds matches: what matched before still
/// matches, in the same order.
pub proof fn a_wildcard_only_adds(t: Tree, root: Seq<char>, segs: Seq<Seq<char>>, k: int)
    requires
        0 <= k < segs.len(),
    ensures
        seqs::is_part(matched(t, root, segs), matched(t, root, segs.update(k, seq!['*']))),
        forall|id: u32| #[trigger]
            matched(t, root, segs).contains(id) ==> matched(
                t,
                root,
                segs.update(k, seq!['*']),
            ).contains(id),
{
    let more = segs.update(k, seq!['*']);
    if let Some(start) = t.located(locate::normal(root)) {
        seqs::part_of_itself(seq![start]);
        expand_keeps_parts(t, seq![start], seq![start], segs, more);
        seqs::part_filtered(
            expand(t, seq![start], segs),
            expand(t, seq![start], more),
            not_root(t),
            not_root(t),
        );
    }
    seqs::part_members(matched(t, root, segs), matched(t, root, more));
}

// ---------------------------------------------------------------------------
// Finders
// ---------------------------------------------------------------------------

/// A node with the given name; a folder where only folders are wanted.
pub open spec fn named(t: Tree, name: Seq<char>, dirs_only: bool) -> spec_fn(u32) -> bool {
    |id: u32| (!dirs_only || t.at(id as int).dir) && names::same_ci(t.units(id as int), name)
}

/// Walks list nodes.
proof fn preorder_nodes(t: Tree, start: u32)
    requires
        t.wf(),
    ensures
        all_nodes(t, t.preorder(start as int)),
{
    t.walk_is_the_subtree(start);
    let ids = t.preorder(start as int);
    assert forall|i: int| 0 <= i < ids.len() implies t.has(#[trigger] ids[i] as int) by {
        assert(ids.contains(ids[i]));
        t.under_is_later(ids[i] as int, start as int);
    }
}

/// Finds the nodes named `name` anywhere from `start` down.
pub fn find_named(tree: &Tree, start: u32, name: &str, dirs_only: bool) -> (r: Vec<u32>)
    requires
        tree.wf(),
    ensures
        r@ == tree.preorder(start as int).filter(named(*tree, name@, dirs_only)),
        all_nodes(*tree, r@),
{
    let ids = tree.walk(start);
    let ghost p = named(*tree, name@, dirs_only);
    let mut out: Vec<u32> = Vec::new();
    let mut i: usize = 0;
    proof {
        preorder_nodes(*tree, start);
        seqs::filter_nothing::<u32>(p);
        assert(ids@.take(0) =~= Seq::empty());
    }
    while i < ids.len()
        invariant
            tree.wf(),
            i <= ids.len(),
            all_nodes(*tree, ids@),
            all_nodes(*tree, out@),
            p == named(*tree, name@, dirs_only),
            out@ == ids@.take(i as int).filter(p),
        decreases ids.len() - i,
    {
        let id: u32 = ids[i];
        proof {
            seqs::filter_step(ids@, i as int, p);
            assert(tree.has(ids@[i as int] as int));
        }
        if (!dirs_only || tree.arena[id as usize].dir) && names::eq_ci(tree.name_u16(id), name) {
            out.push(id);
        }
        i += 1;
    }
    assert(ids@.take(i as int) =~= ids@);
    out
}

/// Folder names that are build artifacts wherever they stand.
pub open spec fn artifact_names() -> Seq<Seq<char>> {
    seq![
        "build"@,
        ".build"@,
        "dist"@,
        ".next"@,
        ".nuxt"@,
        ".turbo"@,
        ".parcel-cache"@,
        ".terraform"@,
        "__pycache__"@,
        ".pytest_cache"@,
        ".mypy_cache"@,
        ".ruff_cache"@,
        ".tox"@,
        ".gradle"@,
    ]
}

/// The name is one of a list.
pub open spec fn one_of(u: Seq<u16>, list: Seq<Seq<char>>) -> bool {
    exists|i: int| 0 <= i < list.len() && names::same_ci(u, #[trigger] list[i])
}

/// Whether a name is one of a list.
fn is_one_of(name: &[u16], list: &Vec<&'static str>) -> (r: bool)
    ensures
        r == one_of(name@, text::texts(list@)),
{
    let mut i: usize = 0;
    while i < list.len()
        invariant
            i <= list.len(),
            forall|k: int| 0 <= k < i ==> !names::same_ci(name@, #[trigger] text::texts(list@)[k]),
        decreases list.len() - i,
    {
        if names::eq_ci(name, list[i]) {
            assert(text::texts(list@)[i as int] == list@[i as int]@);
            return true;
        }
        i += 1;
    }
    false
}

/// The folder names that are build artifacts wherever they stand.
pub fn build_artifact_names() -> (r: Vec<&'static str>)
    ensures
        text::texts(r@) == artifact_names(),
{
    let r: Vec<&'static str> = vec![
        "build",
        ".build",
        "dist",
        ".next",
        ".nuxt",
        ".turbo",
        ".parcel-cache",
        ".terraform",
        "__pycache__",
        ".pytest_cache",
        ".mypy_cache",
        ".ruff_cache",
        ".tox",
        ".gradle",
    ];
    assert(text::texts(r@) =~= artifact_names());
    r
}

/// Some sibling has the given name.
pub open spec fn has_sibling(siblings: Seq<Seq<u16>>, name: Seq<char>) -> bool {
    exists|i: int| 0 <= i < siblings.len() && names::same_ci(#[trigger] siblings[i], name)
}

/// Some sibling has the given extension.
pub open spec fn has_sibling_ext(siblings: Seq<Seq<u16>>, ext: Seq<char>) -> bool {
    exists|i: int| 0 <= i < siblings.len() && names::ends_in_ext(#[trigger] siblings[i], ext)
}

/// A folder that is a build artifact because of what stands beside it:
/// `target` beside a Cargo or Maven manifest, `bin` and `obj` beside a .NET or
/// C++ project.
pub open spec fn artifact_beside(name: Seq<u16>, siblings: Seq<Seq<u16>>) -> bool {
    if names::same_ci(name, "target"@) {
        has_sibling(siblings, "Cargo.toml"@) || has_sibling(siblings, "pom.xml"@)
    } else {
        (names::same_ci(name, "bin"@) || names::same_ci(name, "obj"@)) && (has_sibling(
            siblings,
            "project.json"@,
        ) || has_sibling_ext(siblings, "csproj"@) || has_sibling_ext(siblings, "vcxproj"@))
    }
}

/// The contents of a list of names.
pub open spec fn unit_views(v: Seq<Vec<u16>>) -> Seq<Seq<u16>> {
    v.map_values(|x: Vec<u16>| x@)
}

fn sibling_named(siblings: &[Vec<u16>], name: &str) -> (r: bool)
    ensures
        r == has_sibling(unit_views(siblings@), name@),
{
    let mut i: usize = 0;
    while i < siblings.len()
        invariant
            i <= siblings.len(),
            forall|k: int| 0 <= k < i ==> !names::same_ci(#[trigger] unit_views(siblings@)[k], name@),
        decreases siblings.len() - i,
    {
        assert(unit_views(siblings@)[i as int] == siblings@[i as int]@);
        if names::eq_ci(siblings[i].as_slice(), name) {
            return true;
        }
        i += 1;
    }
    false
}

fn sibling_with_ext(siblings: &[Vec<u16>], ext: &str) -> (r: bool)
    ensures
        r == has_sibling_ext(unit_views(siblings@), ext@),
{
    let mut i: usize = 0;
    while i < siblings.len()
        invariant
            i <= siblings.len(),
            forall|k: int| 0 <= k < i ==> !names::ends_in_ext(#[trigger] unit_views(siblings@)[k], ext@),
        decreases siblings.len() - i,
    {
        assert(unit_views(siblings@)[i as int] == siblings@[i as int]@);
        if names::has_ext_ci(siblings[i].as_slice(), ext) {
            return true;
        }
        i += 1;
    }
    false
}

/// Build-artifact rules that need sibling context (`target`, `bin`, `obj`).
pub fn build_artifact_with_sibling(name: &[u16], siblings: &[Vec<u16>]) -> (r: bool)
    ensures
        r == artifact_beside(name@, unit_views(siblings@)),
{
    if names::eq_ci(name, "target") {
        return sibling_named(siblings, "Cargo.toml") || sibling_named(siblings, "pom.xml");
    }
    if names::eq_ci(name, "bin") || names::eq_ci(name, "obj") {
        return sibling_named(siblings, "project.json") || sibling_with_ext(siblings, "csproj")
            || sibling_with_ext(siblings, "vcxproj");
    }
    false
}

/// Names of a list of nodes.
pub open spec fn names_of(t: Tree, ids: Seq<u32>) -> Seq<Seq<u16>> {
    ids.map_values(|c: u32| t.units(c as int))
}

/// A live build-artifact folder.
pub open spec fn artifact(t: Tree) -> spec_fn(u32) -> bool {
    |id: u32|
        {
            let n = t.at(id as int);
            n.dir && !n.removed && (one_of(t.units(id as int), artifact_names()) || (n.parent
                != NO_PARENT && artifact_beside(
                t.units(id as int),
                names_of(t, t.kids_of(n.parent as int)),
            )))
        }
}

/// Copies the names of a folder's children.
fn sibling_names(tree: &Tree, parent: u32) -> (r: Vec<Vec<u16>>)
    requires
        tree.wf(),
    ensures
        unit_views(r@) == names_of(*tree, tree.kids_of(parent as int)),
{
    let list = tree.children_sorted(parent);
    let mut out: Vec<Vec<u16>> = Vec::new();
    let mut i: usize = 0;
    while i < list.len()
        invariant
            tree.wf(),
            list@ == tree.kids_of(parent as int),
            i <= list.len(),
            unit_views(out@) == names_of(*tree, list@.take(i as int)),
        decreases list.len() - i,
    {
        let mut name: Vec<u16> = Vec::new();
        name.extend_from_slice(tree.name_u16(list[i]));
        assert(name@ =~= tree.units(list@[i as int] as int));
        let ghost before = unit_views(out@);
        let ghost added = name@;
        out.push(name);
        assert(unit_views(out@) =~= before.push(added));
        assert(names_of(*tree, list@.take(i + 1)) =~= names_of(*tree, list@.take(i as int)).push(
            added,
        ));
        i += 1;
    }
    assert(list@.take(i as int) =~= list@);
    out
}

/// Collects the build-artifact folders from `start` down.
pub fn find_build_artifacts(tree: &Tree, start: u32) -> (r: Vec<u32>)
    requires
        tree.wf(),
    ensures
        r@ == tree.preorder(start as int).filter(artifact(*tree)),
        all_nodes(*tree, r@),
{
    let ids = tree.walk(start);
    let always = build_artifact_names();
    let ghost p = artifact(*tree);
    let mut out: Vec<u32> = Vec::new();
    let mut i: usize = 0;
    proof {
        preorder_nodes(*tree, start);
        seqs::filter_nothing::<u32>(p);
        assert(ids@.take(0) =~= Seq::empty());
    }
    while i < ids.len()
        invariant
            tree.wf(),
            i <= ids.len(),
            all_nodes(*tree, ids@),
            all_nodes(*tree, out@),
            text::texts(always@) == artifact_names(),
            p == artifact(*tree),
            out@ == ids@.take(i as int).filter(p),
        decreases ids.len() - i,
    {
        let id: u32 = ids[i];
        proof {
            seqs::filter_step(ids@, i as int, p);
            assert(tree.has(ids@[i as int] as int));
        }
        let n = tree.arena[id as usize];
        if n.dir && !n.removed {
            let name = tree.name_u16(id);
            if is_one_of(name, &always) {
                out.push(id);
            } else if n.parent != NO_PARENT {
                let siblings = sibling_names(tree, n.parent);
                if build_artifact_with_sibling(name, siblings.as_slice()) {
                    out.push(id);
                }
            }
        }
        i += 1;
    }
    assert(ids@.take(i as int) =~= ids@);
    out
}

/// A live local media file of at least [`LARGE_MEDIA_MIN`] bytes.
pub open spec fn large_media(t: Tree) -> spec_fn(u32) -> bool {
    |id: u32|
        {
            let n = t.at(id as int);
            !n.dir && n.logical >= LARGE_MEDIA_MIN && !n.cloud && !n.removed && n.kind.is_media()
        }
}

/// Collects video, audio and image files of at least 10 MB (logical size).
pub fn find_large_media(tree: &Tree, start: u32) -> (r: Vec<u32>)
    requires
        tree.wf(),
    ensures
        r@ == tree.preorder(start as int).filter(large_media(*tree)),
        all_nodes(*tree, r@),
{
    let ids = tree.walk(start);
    let ghost p = large_media(*tree);
    let mut out: Vec<u32> = Vec::new();
    let mut i: usize = 0;
    proof {
        preorder_nodes(*tree, start);
        seqs::filter_nothing::<u32>(p);
        assert(ids@.take(0) =~= Seq::empty());
    }
    while i < ids.len()
        invariant
            tree.wf(),
            i <= ids.len(),
            all_nodes(*tree, ids@),
            all_nodes(*tree, out@),
            p == large_media(*tree),
            out@ == ids@.take(i as int).filter(p),
        decreases ids.len() - i,
    {
        let id: u32 = ids[i];
        proof {
            seqs::filter_step(ids@, i as int, p);
            assert(tree.has(ids@[i as int] as int));
        }
        let n = tree.arena[id as usize];
        if !n.dir && n.logical >= LARGE_MEDIA_MIN && !n.cloud && !n.removed && n.kind.media() {
            out.push(id);
        }
        i += 1;
    }
    assert(ids@.take(i as int) =~= ids@);
    out
}

/// A standalone virtual disk of at least [`VM_DISK_MIN`] bytes.
pub open spec fn big_vhdx(t: Tree) -> spec_fn(u32) -> bool {
    |id: u32|
        {
            let n = t.at(id as int);
            !n.dir && names::ends_in_ext(t.units(id as int), "vhdx"@) && n.logical >= VM_DISK_MIN
        }
}

/// A virtual disk file of any size.
pub open spec fn vm_disk(t: Tree) -> spec_fn(u32) -> bool {
    |id: u32|
        !t.at(id as int).dir && (names::ends_in_ext(t.units(id as int), "vhdx"@) || names::ends_in_ext(
            t.units(id as int),
            "vmdk"@,
        ))
}

/// Collects virtual disks from `start` down: `.vhdx` and `.vmdk` files of any
/// size, or only `.vhdx` files of at least 1 GB.
fn find_vm_disks(tree: &Tree, start: u32, any_size: bool) -> (r: Vec<u32>)
    requires
        tree.wf(),
    ensures
        any_size ==> r@ == tree.preorder(start as int).filter(vm_disk(*tree)),
        !any_size ==> r@ == tree.preorder(start as int).filter(big_vhdx(*tree)),
        all_nodes(*tree, r@),
        forall|id: u32| #[trigger]
            r@.contains(id) <==> {
                let u = tree.units(id as int);
                &&& tree.under(id as int, start as int)
                &&& !tree.arena@[id as int].dir
                &&& any_size ==> names::ends_in_ext(u, "vhdx"@) || names::ends_in_ext(u, "vmdk"@)
                &&& !any_size ==> names::ends_in_ext(u, "vhdx"@) && tree.arena@[id as int].logical
                    >= 1073741824
            },
{
    let ids = tree.walk(start);
    let ghost p = if any_size {
        vm_disk(*tree)
    } else {
        big_vhdx(*tree)
    };
    let mut out: Vec<u32> = Vec::new();
    let mut i: usize = 0;
    proof {
        preorder_nodes(*tree, start);
        seqs::filter_nothing::<u32>(p);
        assert(ids@.take(0) =~= Seq::empty());
    }
    while i < ids.len()
        invariant
            tree.wf(),
            i <= ids.len(),
            all_nodes(*tree, ids@),
            all_nodes(*tree, out@),
            any_size ==> p == vm_disk(*tree),
            !any_size ==> p == big_vhdx(*tree),
            out@ == ids@.take(i as int).filter(p),
        decreases ids.len() - i,
    {
        let id: u32 = ids[i];
        proof {
            seqs::filter_step(ids@, i as int, p);
            assert(tree.has(ids@[i as int] as int));
        }
        let n = tree.arena[id as usize];
        if !n.dir {
            let name = tree.name_u16(id);
            let vhdx = names::has_ext_ci(name, "vhdx");
            let keep = if any_size {
                vhdx || names::has_ext_ci(name, "vmdk")
            } else {
                vhdx && n.logical >= VM_DISK_MIN
            };
            if keep {
                out.push(id);
            }
        }
        i += 1;
    }
    assert(ids@.take(i as int) =~= ids@);
    proof {
        tree.walk_is_the_subtree(start);
        seqs::filter_members(ids@, p);
    }
    out
}

// ---------------------------------------------------------------------------
// Rows
// ---------------------------------------------------------------------------

/// No other item lies above item `i`, and it is the first of its id.
pub open spec fn outermost(t: Tree, items: Seq<u32>, i: int) -> bool {
    &&& forall|j: int|
        0 <= j < items.len() && items[j] != items[i] ==> !t.under(
            items[i] as int,
            #[trigger] items[j] as int,
        )
    &&& forall|j: int| 0 <= j < i ==> #[trigger] items[j] != items[i]
}

/// The outermost items among the first `n`, in order.
pub open spec fn outer(t: Tree, items: Seq<u32>, n: nat) -> Seq<u32>
    decreases n,
{
    if n == 0 {
        Seq::empty()
    } else {
        let rest = outer(t, items, (n - 1) as nat);
        if outermost(t, items, n - 1) {
            rest.push(items[n - 1])
        } else {
            rest
        }
    }
}

/// At most [`CATEGORY_CAP`] of the ids.
pub open spec fn at_cap(ids: Seq<u32>) -> Seq<u32> {
    if ids.len() <= CATEGORY_CAP {
        ids
    } else {
        ids.take(CATEGORY_CAP as int)
    }
}

/// The items that a category counts.
pub open spec fn kept(t: Tree, items: Seq<u32>) -> Seq<u32> {
    at_cap(outer(t, items, items.len()))
}

/// The id is that of an outermost item among the first `n`.
spec fn is_outer(t: Tree, items: Seq<u32>, n: nat, id: u32) -> bool {
    exists|i: int| 0 <= i < n && items[i] == id && #[trigger] outermost(t, items, i)
}

proof fn outer_members(t: Tree, items: Seq<u32>, n: nat)
    requires
        n <= items.len(),
    ensures
        outer(t, items, n).len() <= n,
        outer(t, items, n).no_duplicates(),
        forall|k: int|
            0 <= k < outer(t, items, n).len() ==> is_outer(
                t,
                items,
                n,
                #[trigger] outer(t, items, n)[k],
            ),
    decreases n,
{
    if n > 0 {
        let m = (n - 1) as nat;
        let rest = outer(t, items, m);
        outer_members(t, items, m);
        let whole = outer(t, items, n);
        assert forall|k: int| 0 <= k < whole.len() implies is_outer(
            t,
            items,
            n,
            #[trigger] whole[k],
        ) by {
            if k < rest.len() {
                assert(whole[k] == rest[k]);
                assert(is_outer(t, items, m, rest[k]));
                let i = choose|i: int|
                    0 <= i < m && items[i] == rest[k] && #[trigger] outermost(t, items, i);
                assert(outermost(t, items, i));
            } else {
                assert(outermost(t, items, n - 1));
            }
        }
        if outermost(t, items, n - 1) {
            assert forall|k: int| 0 <= k < rest.len() implies rest[k] != items[n - 1] by {
                assert(is_outer(t, items, m, rest[k]));
                let i = choose|i: int|
                    0 <= i < m && items[i] == rest[k] && #[trigger] outermost(t, items, i);
                assert(items[i] != items[n - 1]);
            }
        }
    }
}

/// A category never counts something nested inside its own match, nor anything
/// twice, and holds at most [`CATEGORY_CAP`] items, all of them matches.
pub proof fn kept_items_are_apart(t: Tree, items: Seq<u32>)
    ensures
        kept(t, items).len() <= CATEGORY_CAP,
        kept(t, items).no_duplicates(),
        forall|k: int|
            0 <= k < kept(t, items).len() ==> items.contains(#[trigger] kept(t, items)[k]),
        forall|a: int, b: int|
            0 <= a < kept(t, items).len() && 0 <= b < kept(t, items).len() && a != b ==> !t.under(
                #[trigger] kept(t, items)[a] as int,
                #[trigger] kept(t, items)[b] as int,
            ),
{
    let all = outer(t, items, items.len());
    let k = kept(t, items);
    outer_members(t, items, items.len());
    assert forall|a: int| 0 <= a < k.len() implies items.contains(#[trigger] k[a]) by {
        assert(k[a] == all[a]);
        assert(is_outer(t, items, items.len(), all[a]));
    }
    assert forall|a: int, b: int| 0 <= a < k.len() && 0 <= b < k.len() && a != b implies !t.under(
        #[trigger] k[a] as int,
        #[trigger] k[b] as int,
    ) by {
        assert(k[a] == all[a] && k[b] == all[b]);
        assert(is_outer(t, items, items.len(), all[a]));
        assert(is_outer(t, items, items.len(), all[b]));
        let i = choose|i: int|
            0 <= i < items.len() && items[i] == all[a] && #[trigger] outermost(t, items, i);
        let j = choose|j: int|
            0 <= j < items.len() && items[j] == all[b] && #[trigger] outermost(t, items, j);
        assert(items[j] != items[i]);
    }
}

/// Marks the given ids.
fn marks(tree: &Tree, items: &Vec<u32>) -> (r: Vec<bool>)
    requires
        tree.wf(),
        all_nodes(*tree, items@),
    ensures
        r@.len() == tree.size(),
        forall|x: int| 0 <= x < r@.len() ==> #[trigger] r@[x] == items@.contains(x as u32),
{
    let mut r: Vec<bool> = Vec::new();
    r.resize(tree.arena.len(), false);
    let mut i: usize = 0;
    while i < items.len()
        invariant
            i <= items.len(),
            all_nodes(*tree, items@),
            r@.len() == tree.size(),
            tree.size() <= u32::MAX + 1,
            forall|x: int|
                0 <= x < r@.len() ==> #[trigger] r@[x] == items@.take(i as int).contains(x as u32),
        decreases items.len() - i,
    {
        assert(tree.has(items@[i as int] as int));
        let ghost before = r@;
        let id: u32 = items[i];
        r.set(id as usize, true);
        proof {
            let seen = items@.take(i as int);
            let more = items@.take(i + 1);
            assert(more[i as int] == id);
            assert forall|x: int| 0 <= x < r@.len() implies #[trigger] r@[x] == more.contains(
                x as u32,
            ) by {
                if x != id {
                    assert(r@[x] == before[x]);
                    if seen.contains(x as u32) {
                        let j = seen.index_of(x as u32);
                        assert(more[j] == x as u32);
                    }
                    if more.contains(x as u32) {
                        let j = more.index_of(x as u32);
                        assert(seen[j] == x as u32);
                    }
                }
            }
        }
        i += 1;
    }
    assert(items@.take(i as int) =~= items@);
    r
}

/// Whether a marked node lies strictly above `id`.
fn marked_above(tree: &Tree, marked: &Vec<bool>, id: u32) -> (r: bool)
    requires
        tree.wf(),
        tree.has(id as int),
        marked@.len() == tree.size(),
    ensures
        r == exists|x: int|
            0 <= x < marked@.len() && #[trigger] marked@[x] && x != id && tree.under(id as int, x),
{
    let mut cur: u32 = id;
    while cur != 0
        invariant
            tree.wf(),
            tree.has(id as int),
            tree.has(cur as int),
            marked@.len() == tree.size(),
            tree.under(id as int, cur as int),
            forall|x: int|
                0 <= x < marked@.len() && #[trigger] marked@[x] && x != id && tree.under(
                    id as int,
                    x,
                ) ==> x != cur && tree.under(cur as int, x),
        decreases cur,
    {
        proof {
            assert(tree.parent_wf(cur as int));
            tree.under_parent(id as int, cur as int);
            tree.under_is_later(id as int, tree.at(cur as int).parent as int);
            tree.under_is_later(id as int, cur as int);
        }
        let up: u32 = tree.arena[cur as usize].parent;
        if marked[up as usize] {
            assert(marked@[up as int]);
            return true;
        }
        cur = up;
    }
    assert forall|x: int|
        !(0 <= x < marked@.len() && #[trigger] marked@[x] && x != id && tree.under(
            id as int,
            x,
        )) by {
        if 0 <= x < marked@.len() && marked@[x] && x != id && tree.under(id as int, x) {
            tree.under_is_later(0, x);
        }
    }
    false
}

/// Drops items nested inside another item, and repeated ones; stops at the cap.
fn keep_outer(tree: &Tree, items: &Vec<u32>) -> (r: Vec<u32>)
    requires
        tree.wf(),
        all_nodes(*tree, items@),
    ensures
        r@ == kept(*tree, items@),
        all_nodes(*tree, r@),
{
    let marked = marks(tree, items);
    let mut seen: Vec<bool> = Vec::new();
    seen.resize(tree.arena.len(), false);
    let mut out: Vec<u32> = Vec::new();
    let mut i: usize = 0;
    while i < items.len() && out.len() < CATEGORY_CAP
        invariant
            i <= items.len(),
            tree.wf(),
            all_nodes(*tree, items@),
            all_nodes(*tree, out@),
            marked@.len() == tree.size(),
            seen@.len() == tree.size(),
            forall|x: int|
                0 <= x < marked@.len() ==> #[trigger] marked@[x] == items@.contains(x as u32),
            forall|x: int|
                0 <= x < seen@.len() ==> #[trigger] seen@[x] == items@.take(i as int).contains(
                    x as u32,
                ),
            out@.len() <= CATEGORY_CAP,
            out@ == outer(*tree, items@, i as nat),
        decreases items.len() - i,
    {
        let id: u32 = items[i];
        assert(tree.has(items@[i as int] as int));
        let nested = marked_above(tree, &marked, id);
        let repeated = seen[id as usize];
        proof {
            let before = items@.take(i as int);
            assert(repeated == before.contains(id));
            if repeated {
                let j = before.index_of(id);
                assert(items@[j] == id);
            } else {
                assert forall|j: int| 0 <= j < i implies #[trigger] items@[j] != items@[i as int] by {
                    if items@[j] == id {
                        assert(before[j] == id);
                    }
                }
            }
            if nested {
                let x = choose|x: int|
                    0 <= x < marked@.len() && #[trigger] marked@[x] && x != id && tree.under(
                        id as int,
                        x,
                    );
                assert(items@.contains(x as u32));
                let j = items@.index_of(x as u32);
                assert(items@[j] == x as u32);
                assert(!outermost(*tree, items@, i as int));
            } else {
                assert forall|j: int|
                    0 <= j < items@.len() && items@[j] != items@[i as int] implies !tree.under(
                    items@[i as int] as int,
                    #[trigger] items@[j] as int,
                ) by {
                    assert(items@.contains(items@[j]));
                    assert(tree.has(items@[j] as int));
                    assert(marked@[items@[j] as int]);
                }
            }
            assert(outermost(*tree, items@, i as int) == (!nested && !repeated));
        }
        if !nested && !repeated {
            out.push(id);
        }
        let ghost old_seen = seen@;
        seen.set(id as usize, true);
        proof {
            let before = items@.take(i as int);
            let more = items@.take(i + 1);
            assert(more[i as int] == id);
            assert forall|x: int| 0 <= x < seen@.len() implies #[trigger] seen@[x] == more.contains(
                x as u32,
            ) by {
                if x != id {
                    assert(seen@[x] == old_seen[x]);
                    if before.contains(x as u32) {
                        let j = before.index_of(x as u32);
                        assert(more[j] == x as u32);
                    }
                    if more.contains(x as u32) {
                        let j = more.index_of(x as u32);
                        assert(before[j] == x as u32);
                    }
                }
            }
        }
        i += 1;
    }
    proof {
        outer_grows(*tree, items@, i as nat, items@.len());
        assert(out@ =~= kept(*tree, items@));
    }
    out
}

/// Looking at more items only appends.
proof fn outer_grows(t: Tree, items: Seq<u32>, n: nat, m: nat)
    requires
        n <= m <= items.len(),
    ensures
        outer(t, items, n).len() <= outer(t, items, m).len(),
        outer(t, items, m).take(outer(t, items, n).len() as int) == outer(t, items, n),
    decreases m,
{
    let a = outer(t, items, n);
    if n == m {
        assert(a.take(a.len() as int) =~= a);
    } else {
        outer_grows(t, items, n, (m - 1) as nat);
        let b = outer(t, items, (m - 1) as nat);
        let c = outer(t, items, m);
        assert(c.take(a.len() as int) =~= b.take(a.len() as int));
    }
}

/// What a [`QuickWinCategory`] says.
pub ghost struct Row {
    pub id: Seq<char>,
    pub title: Seq<char>,
    pub icon: Seq<char>,
    pub items: Seq<u32>,
    pub size: int,
    pub review_only: bool,
    pub extra: Option<Seq<char>>,
}

/// How a row is shown.
pub ghost struct Face {
    pub id: Seq<char>,
    pub title: Seq<char>,
    pub icon: Seq<char>,
    pub review_only: bool,
    pub extra: Option<Seq<char>>,
}

impl QuickWinCategory {
    /// What the row says.
    pub open spec fn says(&self) -> Row {
        Row {
            id: self.id@,
            title: self.title@,
            icon: self.icon@,
            items: self.items@,
            size: self.size as int,
            review_only: self.review_only,
            extra: match self.extra {
                Some(x) => Some(x@),
                None => None,
            },
        }
    }
}

/// What a list of rows says.
pub open spec fn says_rows(r: Seq<QuickWinCategory>) -> Seq<Row> {
    r.map_values(|x: QuickWinCategory| x.says())
}

/// The sum of the sizes on disk of a list of nodes.
pub open spec fn disk_sum(t: Tree, list: Seq<u32>) -> int
    decreases list.len(),
{
    if list.len() == 0 {
        0
    } else {
        disk_sum(t, list.drop_last()) + t.at(list.last() as int).on_disk
    }
}

/// The row for some matches: none where nothing is kept.
pub open spec fn row(t: Tree, face: Face, items: Seq<u32>) -> Seq<Row> {
    let k = kept(t, items);
    if k.len() == 0 {
        Seq::empty()
    } else {
        seq![
            Row {
                id: face.id,
                title: face.title,
                icon: face.icon,
                items: k,
                size: rollup::capped(disk_sum(t, k)),
                review_only: face.review_only,
                extra: face.extra,
            },
        ]
    }
}

proof fn disk_sum_is_nat(t: Tree, list: Seq<u32>)
    ensures
        disk_sum(t, list) >= 0,
    decreases list.len(),
{
    if list.len() > 0 {
        disk_sum_is_nat(t, list.drop_last());
    }
}

/// Bytes on disk of a list of nodes.
fn on_disk_of(tree: &Tree, ids: &Vec<u32>) -> (r: u64)
    requires
        tree.wf(),
        all_nodes(*tree, ids@),
    ensures
        r == rollup::capped(disk_sum(*tree, ids@)),
{
    let mut size: u64 = 0;
    let mut i: usize = 0;
    while i < ids.len()
        invariant
            i <= ids.len(),
            all_nodes(*tree, ids@),
            size == rollup::capped(disk_sum(*tree, ids@.take(i as int))),
        decreases ids.len() - i,
    {
        let id: u32 = ids[i];
        proof {
            assert(tree.has(ids@[i as int] as int));
            disk_sum_is_nat(*tree, ids@.take(i as int));
            assert(ids@.take(i + 1).drop_last() =~= ids@.take(i as int));
        }
        size = size.saturating_add(tree.arena[id as usize].on_disk);
        i += 1;
    }
    assert(ids@.take(i as int) =~= ids@);
    size
}

/// Where a row of the size stands: behind the last row that is as large.
pub open spec fn spot(rows: Seq<Row>, size: int) -> int
    decreases rows.len(),
{
    if rows.len() == 0 || rows.last().size >= size {
        rows.len() as int
    } else {
        spot(rows.drop_last(), size)
    }
}

/// The rows with each of some more put in its spot, one after the other.
pub open spec fn placed(rows: Seq<Row>, more: Seq<Row>) -> Seq<Row>
    decreases more.len(),
{
    if more.len() == 0 {
        rows
    } else {
        let done = placed(rows, more.drop_last());
        done.insert(spot(done, more.last().size), more.last())
    }
}

/// The rows by size, the largest first; equally large ones keep their order.
pub open spec fn by_size(rows: Seq<Row>) -> Seq<Row> {
    placed(Seq::empty(), rows)
}

proof fn placed_in_turn(rows: Seq<Row>, a: Seq<Row>, b: Seq<Row>)
    ensures
        placed(rows, a + b) == placed(placed(rows, a), b),
    decreases b.len(),
{
    if b.len() == 0 {
        assert(a + b =~= a);
    } else {
        assert((a + b).drop_last() =~= a + b.drop_last());
        assert((a + b).last() == b.last());
        placed_in_turn(rows, a, b.drop_last());
    }
}

proof fn spot_holds(rows: Seq<Row>, size: int)
    requires
        forall|i: int, j: int|
            0 <= i < j < rows.len() ==> (#[trigger] rows[i]).size >= (#[trigger] rows[j]).size,
    ensures
        0 <= spot(rows, size) <= rows.len(),
        forall|i: int| 0 <= i < spot(rows, size) ==> (#[trigger] rows[i]).size >= size,
        forall|i: int| spot(rows, size) <= i < rows.len() ==> (#[trigger] rows[i]).size < size,
    decreases rows.len(),
{
    if rows.len() > 0 && rows.last().size < size {
        let rest = rows.drop_last();
        assert forall|i: int, j: int| 0 <= i < j < rest.len() implies (#[trigger] rest[i]).size >= (
        #[trigger] rest[j]).size by {
            assert(rows[i].size >= rows[j].size);
        }
        spot_holds(rest, size);
        assert forall|i: int| 0 <= i < spot(rows, size) implies (#[trigger] rows[i]).size >= size by {
            assert(rest[i] == rows[i]);
        }
        assert forall|i: int| spot(rows, size) <= i < rows.len() implies (#[trigger] rows[i]).size
            < size by {
            if i < rest.len() {
                assert(rest[i] == rows[i]);
            }
        }
    }
}

/// The rows of one size.
pub open spec fn of_size(size: int) -> spec_fn(Row) -> bool {
    |r: Row| r.size == size
}

proof fn none_of_size(rows: Seq<Row>, size: int)
    requires
        forall|i: int| 0 <= i < rows.len() ==> (#[trigger] rows[i]).size < size,
    ensures
        rows.filter(of_size(size)) == Seq::<Row>::empty(),
    decreases rows.len(),
{
    reveal(Seq::filter);
    if rows.len() > 0 {
        let rest = rows.drop_last();
        assert forall|i: int| 0 <= i < rest.len() implies (#[trigger] rest[i]).size < size by {
            assert(rest[i] == rows[i]);
        }
        none_of_size(rest, size);
        assert(rows[rows.len() - 1].size < size);
    }
}

/// Rows by size are the same rows, the largest first, and those of any one size
/// stand in the order in which they came.
pub proof fn rows_stand_largest_first(rows: Seq<Row>)
    ensures
        by_size(rows).to_multiset() == rows.to_multiset(),
        by_size(rows).len() == rows.len(),
        forall|i: int, j: int|
            0 <= i < j < rows.len() ==> (#[trigger] by_size(rows)[i]).size >= (
            #[trigger] by_size(rows)[j]).size,
        forall|size: int| #[trigger]
            by_size(rows).filter(of_size(size)) == rows.filter(of_size(size)),
    decreases rows.len(),
{
    if rows.len() > 0 {
        let rest = rows.drop_last();
        let new = rows.last();
        let done = by_size(rest);
        let all = by_size(rows);
        rows_stand_largest_first(rest);
        spot_holds(done, new.size);
        let k = spot(done, new.size);
        assert(all == done.insert(k, new));
        seqs::insert_multiset(done, k, new);
        rest.to_multiset_ensures();
        assert(rest.push(new) =~= rows);
        assert(rows.to_multiset() =~= rest.to_multiset().insert(new));
        assert forall|i: int, j: int| 0 <= i < j < rows.len() implies (#[trigger] all[i]).size >= (
        #[trigger] all[j]).size by {
            if i != k {
                assert(all[i] == done[if i < k { i } else { i - 1 }]);
            }
            if j != k {
                assert(all[j] == done[if j < k { j } else { j - 1 }]);
            }
        }
        assert forall|size: int| #[trigger] all.filter(of_size(size)) == rows.filter(
            of_size(size),
        ) by {
            let p = of_size(size);
            let head = done.take(k);
            let tail = done.skip(k);
            assert(done =~= head + tail);
            assert(all =~= head.push(new) + tail);
            Seq::filter_distributes_over_add(head, tail, p);
            Seq::filter_distributes_over_add(head.push(new), tail, p);
            seqs::filter_push(head, new, p);
            seqs::filter_push(rest, new, p);
            assert(done.filter(p) == rest.filter(p));
            if new.size == size {
                assert forall|i: int| 0 <= i < tail.len() implies (#[trigger] tail[i]).size
                    < size by {
                    assert(tail[i] == done[k + i]);
                }
                none_of_size(tail, size);
                assert(head.filter(p) + Seq::<Row>::empty() =~= head.filter(p));
                assert(head.filter(p).push(new) + Seq::<Row>::empty() =~= head.filter(p).push(new));
            }
        }
    } else {
        assert(by_size(rows) =~= rows);
    }
}

/// Puts a row in its spot.
fn place(rows: &mut Vec<QuickWinCategory>, new: QuickWinCategory)
    ensures
        says_rows(final(rows)@) == placed(says_rows(old(rows)@), seq![new.says()]),
        exists|k: int|
            #![auto]
            0 <= k <= old(rows)@.len() && final(rows)@ == old(rows)@.insert(k, new),
{
    let ghost before = rows@;
    let ghost said = says_rows(before);
    let mut k: usize = rows.len();
    assert(said.take(k as int) =~= said);
    while k > 0 && rows[k - 1].size < new.size
        invariant
            k <= rows.len(),
            rows@ == before,
            said == says_rows(before),
            spot(said, new.size as int) == spot(said.take(k as int), new.size as int),
        decreases k,
    {
        assert(said.take(k as int).drop_last() =~= said.take(k - 1));
        assert(said.take(k as int).last() == rows@[k - 1].says());
        k -= 1;
    }
    assert(k > 0 ==> said.take(k as int).last() == rows@[k - 1].says());
    rows.insert(k, new);
    proof {
        assert(rows@ == before.insert(k as int, new));
        assert(says_rows(rows@) =~= said.insert(k as int, new.says()));
        let one = seq![new.says()];
        assert(one.drop_last() =~= Seq::<Row>::empty());
        assert(placed(said, one.drop_last()) == said);
    }
}

/// Adds the row for some matches, where something is kept.
fn push_cat(
    tree: &Tree,
    rows: &mut Vec<QuickWinCategory>,
    id: &'static str,
    title: &'static str,
    icon: &'static str,
    review_only: bool,
    extra: Option<&'static str>,
    items: &Vec<u32>,
)
    requires
        tree.wf(),
        all_nodes(*tree, items@),
        forall|i: int|
            0 <= i < old(rows)@.len() ==> all_nodes(*tree, (#[trigger] old(rows)@[i]).items@),
    ensures
        forall|i: int|
            0 <= i < final(rows)@.len() ==> all_nodes(*tree, (#[trigger] final(rows)@[i]).items@),
        says_rows(final(rows)@) == placed(
            says_rows(old(rows)@),
            row(
                *tree,
                Face {
                    id: id@,
                    title: title@,
                    icon: icon@,
                    review_only,
                    extra: match extra {
                        Some(x) => Some(x@),
                        None => None,
                    },
                },
                items@,
            ),
        ),
{
    let ghost face = Face {
        id: id@,
        title: title@,
        icon: icon@,
        review_only,
        extra: match extra {
            Some(x) => Some(x@),
            None => None,
        },
    };
    let filtered = keep_outer(tree, items);
    if filtered.len() == 0 {
        return;
    }
    let size = on_disk_of(tree, &filtered);
    let new = QuickWinCategory { id, title, icon, items: filtered, size, review_only, extra };
    proof {
        let one = row(*tree, face, items@);
        assert(one =~= seq![new.says()]);
    }
    place(rows, new);
}

// ---------------------------------------------------------------------------
// Environment roots
// ---------------------------------------------------------------------------

/// The value of the first pair with the key.
pub open spec fn lookup(env: Seq<(String, String)>, key: Seq<char>) -> Option<Seq<char>>
    decreases env.len(),
{
    if env.len() == 0 {
        None
    } else if env[0].0@ == key {
        Some(env[0].1@)
    } else {
        lookup(env.drop_first(), key)
    }
}

/// The text without percent signs in front.
pub open spec fn no_percent_left(s: Seq<char>) -> Seq<char>
    decreases s.len(),
{
    if s.len() > 0 && s[0] == '%' {
        no_percent_left(s.drop_first())
    } else {
        s
    }
}

/// The text without percent signs at the end.
pub open spec fn no_percent_right(s: Seq<char>) -> Seq<char>
    decreases s.len(),
{
    if s.len() > 0 && s.last() == '%' {
        no_percent_right(s.drop_last())
    } else {
        s
    }
}

/// A key without its percent signs.
pub open spec fn bare(key: Seq<char>) -> Seq<char> {
    no_percent_right(no_percent_left(key))
}

/// The location of an environment root; the pairs may hold the key with its
/// percent signs or without.
pub open spec fn env_root(env: Seq<(String, String)>, key: Seq<char>) -> Option<Seq<char>> {
    match lookup(env, key) {
        Some(v) => Some(v),
        None => lookup(env, bare(key)),
    }
}

/// The value of the first pair with the key.
fn find_env(env: &[(String, String)], key: &str) -> (r: Option<String>)
    ensures
        match r {
            Some(v) => lookup(env@, key@) == Some(v@),
            None => lookup(env@, key@) is None,
        },
{
    let mut k: usize = 0;
    assert(env@.skip(0) =~= env@);
    while k < env.len()
        invariant
            k <= env.len(),
            lookup(env@, key@) == lookup(env@.skip(k as int), key@),
        decreases env.len() - k,
    {
        if text::same_str(env[k].0.as_str(), key) {
            return Some(env[k].1.clone());
        }
        assert(env@.skip(k as int).drop_first() =~= env@.skip(k + 1));
        k += 1;
    }
    None
}

/// A key without its percent signs.
fn bare_key(key: &str) -> (r: String)
    ensures
        r@ == bare(key@),
{
    let cs = text::chars_of(key);
    let mut from: usize = 0;
    assert(cs@.subrange(0, cs@.len() as int) =~= cs@);
    while from < cs.len() && cs[from] == '%'
        invariant
            from <= cs.len(),
            no_percent_left(cs@) == no_percent_left(
                cs@.subrange(from as int, cs@.len() as int),
            ),
        decreases cs.len() - from,
    {
        assert(cs@.subrange(from as int, cs@.len() as int).drop_first() =~= cs@.subrange(
            from + 1,
            cs@.len() as int,
        ));
        from += 1;
    }
    let ghost left = cs@.subrange(from as int, cs@.len() as int);
    let mut to: usize = cs.len();
    while to > from && cs[to - 1] == '%'
        invariant
            from <= to <= cs.len(),
            no_percent_right(left) == no_percent_right(cs@.subrange(from as int, to as int)),
        decreases to - from,
    {
        assert(cs@.subrange(from as int, to as int).drop_last() =~= cs@.subrange(
            from as int,
            to - 1,
        ));
        to -= 1;
    }
    let kept = text::slice_chars(cs.as_slice(), from, to);
    text::string_of(kept.as_slice())
}

/// The location of an environment root.
fn env_lookup(env: &[(String, String)], key: &str) -> (r: Option<String>)
    ensures
        match r {
            Some(v) => env_root(env@, key@) == Some(v@),
            None => env_root(env@, key@) is None,
        },
{
    match find_env(env, key) {
        Some(v) => Some(v),
        None => find_env(env, bare_key(key).as_str()),
    }
}

/// What one entry of a table matches.
pub open spec fn entry_matches(t: Tree, env: Seq<(String, String)>, e: Entry) -> Seq<u32> {
    match env_root(env, e.env) {
        Some(root) => matched(t, root, e.segments),
        None => Seq::empty(),
    }
}

/// What the entries of a category match, in table order.
pub open spec fn bucket(
    t: Tree,
    env: Seq<(String, String)>,
    table: Seq<Entry>,
    category: Seq<char>,
) -> Seq<u32>
    decreases table.len(),
{
    if table.len() == 0 {
        Seq::empty()
    } else {
        let rest = bucket(t, env, table.drop_last(), category);
        if table.last().category == category {
            rest + entry_matches(t, env, table.last())
        } else {
            rest
        }
    }
}

/// What one pattern matches.
fn pattern_items(tree: &Tree, env: &[(String, String)], p: &Pattern) -> (r: Vec<u32>)
    requires
        tree.wf(),
    ensures
        r@ == entry_matches(*tree, env@, p.says()),
        all_nodes(*tree, r@),
{
    match env_lookup(env, p.env) {
        Some(root) => match_pattern(tree, root.as_str(), p.segments.as_slice()),
        None => Vec::new(),
    }
}

/// What the patterns of a category match.
fn collect(
    tree: &Tree,
    env: &[(String, String)],
    patterns: &Vec<Pattern>,
    category: &str,
) -> (r: Vec<u32>)
    requires
        tree.wf(),
    ensures
        r@ == bucket(*tree, env@, catalog::says_all(patterns@), category@),
        all_nodes(*tree, r@),
{
    let ghost table = catalog::says_all(patterns@);
    let mut out: Vec<u32> = Vec::new();
    let mut i: usize = 0;
    while i < patterns.len()
        invariant
            tree.wf(),
            table == catalog::says_all(patterns@),
            i <= patterns.len(),
            out@ == bucket(*tree, env@, table.take(i as int), category@),
            all_nodes(*tree, out@),
        decreases patterns.len() - i,
    {
        assert(table.take(i + 1).drop_last() =~= table.take(i as int));
        assert(table.take(i + 1).last() == patterns@[i as int].says());
        if text::same_str(patterns[i].category, category) {
            let mut more = pattern_items(tree, env, &patterns[i]);
            out.append(&mut more);
        }
        i += 1;
    }
    assert(table.take(i as int) =~= table);
    out
}

// ---------------------------------------------------------------------------
// Virtual disks
// ---------------------------------------------------------------------------

/// The virtual disks from each of some folders down.
pub open spec fn disks_under(t: Tree, ids: Seq<u32>) -> Seq<u32>
    decreases ids.len(),
{
    if ids.len() == 0 {
        Seq::empty()
    } else {
        disks_under(t, ids.drop_last()) + t.preorder(ids.last() as int).filter(vm_disk(t))
    }
}

/// The virtual disks below the roots of a table.
pub open spec fn rooted_disks(
    t: Tree,
    env: Seq<(String, String)>,
    table: Seq<Entry>,
) -> Seq<u32>
    decreases table.len(),
{
    if table.len() == 0 {
        Seq::empty()
    } else {
        rooted_disks(t, env, table.drop_last()) + disks_under(
            t,
            entry_matches(t, env, table.last()),
        )
    }
}

/// The virtual disks below the known roots, then every large one.
pub open spec fn vm_items(t: Tree, env: Seq<(String, String)>) -> Seq<u32> {
    rooted_disks(t, env, catalog::vm_table()) + t.preorder(t.root as int).filter(big_vhdx(t))
}

fn find_vm_items(tree: &Tree, env: &[(String, String)]) -> (r: Vec<u32>)
    requires
        tree.wf(),
    ensures
        r@ == vm_items(*tree, env@),
        all_nodes(*tree, r@),
{
    let roots = catalog::vm_disk_roots();
    let ghost table = catalog::vm_table();
    let mut out: Vec<u32> = Vec::new();
    let mut i: usize = 0;
    while i < roots.len()
        invariant
            tree.wf(),
            table == catalog::says_all(roots@),
            i <= roots.len(),
            out@ == rooted_disks(*tree, env@, table.take(i as int)),
            all_nodes(*tree, out@),
        decreases roots.len() - i,
    {
        let folders = pattern_items(tree, env, &roots[i]);
        let ghost before = out@;
        let mut k: usize = 0;
        assert(before + disks_under(*tree, folders@.take(0)) =~= before);
        while k < folders.len()
            invariant
                tree.wf(),
                k <= folders.len(),
                out@ == before + disks_under(*tree, folders@.take(k as int)),
                all_nodes(*tree, out@),
            decreases folders.len() - k,
        {
            let ghost mid = out@;
            let mut more = find_vm_disks(tree, folders[k], true);
            let ghost added = more@;
            out.append(&mut more);
            proof {
                assert(folders@.take(k + 1).drop_last() =~= folders@.take(k as int));
                assert(folders@.take(k + 1).last() == folders@[k as int]);
                assert(out@ =~= before + (disks_under(*tree, folders@.take(k as int)) + added));
            }
            k += 1;
        }
        proof {
            assert(folders@.take(k as int) =~= folders@);
            assert(table.take(i + 1).drop_last() =~= table.take(i as int));
            assert(table.take(i + 1).last() == roots@[i as int].says());
        }
        i += 1;
    }
    assert(table.take(i as int) =~= table);
    let mut big = find_vm_disks(tree, tree.root, false);
    out.append(&mut big);
    out
}

// ---------------------------------------------------------------------------
// Resolution
// ---------------------------------------------------------------------------

/// A row without special handling.
pub open spec fn plain(id: Seq<char>, title: Seq<char>, icon: Seq<char>) -> Face {
    Face { id, title, icon, review_only: false, extra: None }
}

/// How many categories there are.
pub const CATEGORIES: usize = 12;

/// How category `k` is shown.
pub open spec fn face(k: int) -> Face {
    if k == 0 {
        plain("downloads"@, "Downloads"@, "download"@)
    } else if k == 1 {
        plain("temp_caches"@, "Temp & caches"@, "temp"@)
    } else if k == 2 {
        plain("browser_caches"@, "Browser caches"@, "browser"@)
    } else if k == 3 {
        plain("dev_caches"@, "Developer caches"@, "code"@)
    } else if k == 4 {
        plain("android_emulators"@, "Android emulators"@, "phone"@)
    } else if k == 5 {
        plain("ios_simulators"@, "iOS simulators"@, "phone"@)
    } else if k == 6 {
        plain("xcode_derived"@, "Xcode derived data"@, "hammer"@)
    } else if k == 7 {
        plain("node_modules"@, "node_modules"@, "code"@)
    } else if k == 8 {
        plain("build_artifacts"@, "Build artifacts"@, "hammer"@)
    } else if k == 9 {
        plain("large_media"@, "Large media"@, "video"@)
    } else if k == 10 {
        Face {
            id: "vm_disks"@,
            title: "VM disks"@,
            icon: "server"@,
            review_only: true,
            extra: None,
        }
    } else {
        Face {
            id: "windows_old"@,
            title: "Previous Windows install"@,
            icon: "clock"@,
            review_only: true,
            extra: Some("ms-settings:storagesense"@),
        }
    }
}

/// What category `k` matches: the first seven what their locations match, the
/// others what is found anywhere.
pub open spec fn finds(t: Tree, env: Seq<(String, String)>, host: HostOs, k: int) -> Seq<u32> {
    let all = t.preorder(t.root as int);
    if k < 7 {
        bucket(t, env, catalog::table(host), face(k).id)
    } else if k == 7 {
        all.filter(named(t, "node_modules"@, true))
    } else if k == 8 {
        all.filter(artifact(t))
    } else if k == 9 {
        all.filter(large_media(t))
    } else if k == 10 {
        vm_items(t, env)
    } else {
        all.filter(named(t, "Windows.old"@, true))
    }
}

/// The rows of the first `n` categories, in order.
pub open spec fn rows_upto(t: Tree, env: Seq<(String, String)>, host: HostOs, n: nat) -> Seq<Row>
    decreases n,
{
    if n == 0 {
        Seq::empty()
    } else {
        rows_upto(t, env, host, (n - 1) as nat) + row(
            t,
            face(n - 1),
            finds(t, env, host, n - 1),
        )
    }
}

/// Every row of a tree, before sorting.
pub open spec fn all_rows(t: Tree, env: Seq<(String, String)>, host: HostOs) -> Seq<Row> {
    rows_upto(t, env, host, CATEGORIES as nat)
}

proof fn next_row(
    t: Tree,
    env: Seq<(String, String)>,
    host: HostOs,
    n: nat,
    rows: Seq<Row>,
    done: Seq<Row>,
)
    requires
        rows == by_size(rows_upto(t, env, host, n)),
        done == placed(rows, row(t, face(n as int), finds(t, env, host, n as int))),
    ensures
        done == by_size(rows_upto(t, env, host, n + 1)),
{
    placed_in_turn(
        Seq::empty(),
        rows_upto(t, env, host, n),
        row(t, face(n as int), finds(t, env, host, n as int)),
    );
}

/// Resolves every Quick Wins category against the tree, largest row first,
/// equally large rows in category order.
///
/// `env_roots` maps `%LOCALAPPDATA%` etc. (with or without the percent signs)
/// to absolute paths. `_now` has no effect: large media is age-agnostic.
pub fn resolve(
    tree: &Tree,
    env_roots: &[(String, String)],
    _now: i64,
    host: HostOs,
) -> (out: Vec<QuickWinCategory>)
    requires
        tree.wf(),
    ensures
        says_rows(out@) == by_size(all_rows(*tree, env_roots@, host)),
        forall|i: int| 0 <= i < out@.len() ==> all_nodes(*tree, (#[trigger] out@[i]).items@),
{
    let patterns = catalog::patterns(host);
    let mut out: Vec<QuickWinCategory> = Vec::new();
    let ghost mut rows = says_rows(out@);
    assert(rows =~= by_size(rows_upto(*tree, env_roots@, host, 0)));
    let items = collect(tree, env_roots, &patterns, "downloads");
    push_cat(tree, &mut out, "downloads", "Downloads", "download", false, None, &items);
    proof {
        next_row(*tree, env_roots@, host, 0, rows, says_rows(out@));
        rows = says_rows(out@);
    }
    let items = collect(tree, env_roots, &patterns, "temp_caches");
    push_cat(tree, &mut out, "temp_caches", "Temp & caches", "temp", false, None, &items);
    proof {
        next_row(*tree, env_roots@, host, 1, rows, says_rows(out@));
        rows = says_rows(out@);
    }
    let items = collect(tree, env_roots, &patterns, "browser_caches");
    push_cat(tree, &mut out, "browser_caches", "Browser caches", "browser", false, None, &items);
    proof {
        next_row(*tree, env_roots@, host, 2, rows, says_rows(out@));
        rows = says_rows(out@);
    }
    let items = collect(tree, env_roots, &patterns, "dev_caches");
    push_cat(tree, &mut out, "dev_caches", "Developer caches", "code", false, None, &items);
    proof {
        next_row(*tree, env_roots@, host, 3, rows, says_rows(out@));
        rows = says_rows(out@);
    }
    let items = collect(tree, env_roots, &patterns, "android_emulators");
    push_cat(tree, &mut out, "android_emulators", "Android emulators", "phone", false, None, &items);
    proof {
        next_row(*tree, env_roots@, host, 4, rows, says_rows(out@));
        rows = says_rows(out@);
    }
    let items = collect(tree, env_roots, &patterns, "ios_simulators");
    push_cat(tree, &mut out, "ios_simulators", "iOS simulators", "phone", false, None, &items);
    proof {
        next_row(*tree, env_roots@, host, 5, rows, says_rows(out@));
        rows = says_rows(out@);
    }
    let items = collect(tree, env_roots, &patterns, "xcode_derived");
    push_cat(tree, &mut out, "xcode_derived", "Xcode derived data", "hammer", false, None, &items);
    proof {
        next_row(*tree, env_roots@, host, 6, rows, says_rows(out@));
        rows = says_rows(out@);
    }
    let items = find_named(tree, tree.root, "node_modules", true);
    push_cat(tree, &mut out, "node_modules", "node_modules", "code", false, None, &items);
    proof {
        next_row(*tree, env_roots@, host, 7, rows, says_rows(out@));
        rows = says_rows(out@);
    }
    let items = find_build_artifacts(tree, tree.root);
    push_cat(tree, &mut out, "build_artifacts", "Build artifacts", "hammer", false, None, &items);
    proof {
        next_row(*tree, env_roots@, host, 8, rows, says_rows(out@));
        rows = says_rows(out@);
    }
    let items = find_large_media(tree, tree.root);
    push_cat(tree, &mut out, "large_media", "Large media", "video", false, None, &items);
    proof {
        next_row(*tree, env_roots@, host, 9, rows, says_rows(out@));
        rows = says_rows(out@);
    }
    let items = find_vm_items(tree, env_roots);
    push_cat(tree, &mut out, "vm_disks", "VM disks", "server", true, None, &items);
    proof {
        next_row(*tree, env_roots@, host, 10, rows, says_rows(out@));
        rows = says_rows(out@);
    }
    let items = find_named(tree, tree.root, "Windows.old", true);
    push_cat(
        tree,
        &mut out,
        "windows_old",
        "Previous Windows install",
        "clock",
        true,
        Some("ms-settings:storagesense"),
        &items,
    );
    proof {
        next_row(*tree, env_roots@, host, 11, rows, says_rows(out@));
        rows = says_rows(out@);
    }
    out
}

/// A row of a tree is that of some category.
pub open spec fn is_row_of(
    t: Tree,
    env: Seq<(String, String)>,
    host: HostOs,
    r: Row,
    k: int,
) -> bool {
    row(t, face(k), finds(t, env, host, k)) == seq![r]
}

/// The rows belong to categories in ascending order.
proof fn rows_of(t: Tree, env: Seq<(String, String)>, host: HostOs, n: nat) -> (of: Seq<int>)
    ensures
        of.len() == rows_upto(t, env, host, n).len(),
        forall|i: int|
            0 <= i < of.len() ==> 0 <= (#[trigger] of[i]) < n && is_row_of(
                t,
                env,
                host,
                rows_upto(t, env, host, n)[i],
                of[i],
            ),
        forall|i: int, j: int| 0 <= i < j < of.len() ==> (#[trigger] of[i]) < (#[trigger] of[j]),
    decreases n,
{
    if n == 0 {
        Seq::empty()
    } else {
        let m = (n - 1) as nat;
        let rest = rows_of(t, env, host, m);
        let new = row(t, face(n - 1), finds(t, env, host, n - 1));
        let before = rows_upto(t, env, host, m);
        let whole = rows_upto(t, env, host, n);
        let of = if new.len() == 0 {
            rest
        } else {
            rest.push(n - 1)
        };
        assert forall|i: int| 0 <= i < of.len() implies 0 <= (#[trigger] of[i]) < n && is_row_of(
            t,
            env,
            host,
            whole[i],
            of[i],
        ) by {
            if i < rest.len() {
                assert(of[i] == rest[i]);
                assert(whole[i] == before[i]);
            } else {
                assert(whole[i] == new[0]);
                assert(new =~= seq![whole[i]]);
            }
        }
        assert forall|i: int, j: int| 0 <= i < j < of.len() implies (#[trigger] of[i]) < (
        #[trigger] of[j]) by {
            assert(of[i] == rest[i]);
            if j < rest.len() {
                assert(of[j] == rest[j]);
            }
        }
        of
    }
}

/// No two categories share an id.
proof fn ids_differ(a: int, b: int)
    requires
        0 <= a < CATEGORIES,
        0 <= b < CATEGORIES,
        a != b,
    ensures
        face(a).id != face(b).id,
{
    reveal_strlit("downloads");
    reveal_strlit("temp_caches");
    reveal_strlit("browser_caches");
    reveal_strlit("dev_caches");
    reveal_strlit("android_emulators");
    reveal_strlit("ios_simulators");
    reveal_strlit("xcode_derived");
    reveal_strlit("node_modules");
    reveal_strlit("build_artifacts");
    reveal_strlit("large_media");
    reveal_strlit("vm_disks");
    reveal_strlit("windows_old");
    // Length and first letter tell any two apart.
    assert("downloads"@.len() == 9);
    assert("temp_caches"@.len() == 11 && "temp_caches"@[0] == 't');
    assert("browser_caches"@.len() == 14 && "browser_caches"@[0] == 'b');
    assert("dev_caches"@.len() == 10);
    assert("android_emulators"@.len() == 17);
    assert("ios_simulators"@.len() == 14 && "ios_simulators"@[0] == 'i');
    assert("xcode_derived"@.len() == 13);
    assert("node_modules"@.len() == 12);
    assert("build_artifacts"@.len() == 15);
    assert("large_media"@.len() == 11 && "large_media"@[0] == 'l');
    assert("vm_disks"@.len() == 8);
    assert("windows_old"@.len() == 11 && "windows_old"@[0] == 'w');
}

/// Every category with a match has its row, and no id stands in two rows.
pub proof fn every_category_has_its_row(t: Tree, env: Seq<(String, String)>, host: HostOs)
    ensures
        forall|k: int|
            0 <= k < CATEGORIES && kept(t, #[trigger] finds(t, env, host, k)).len() > 0
                ==> exists|i: int|
                0 <= i < all_rows(t, env, host).len() && is_row_of(
                    t,
                    env,
                    host,
                    #[trigger] all_rows(t, env, host)[i],
                    k,
                ),
        forall|i: int, j: int|
            0 <= i < j < all_rows(t, env, host).len() ==> (#[trigger] all_rows(
                t,
                env,
                host,
            )[i]).id != (#[trigger] all_rows(t, env, host)[j]).id,
{
    let all = all_rows(t, env, host);
    let of = rows_of(t, env, host, CATEGORIES as nat);
    assert forall|i: int, j: int| 0 <= i < j < all.len() implies (#[trigger] all[i]).id != (
    #[trigger] all[j]).id by {
        assert(of[i] < of[j]);
        ids_differ(of[i], of[j]);
        row_is_shown(t, env, host, all[i], of[i]);
        row_is_shown(t, env, host, all[j], of[j]);
    }
    assert forall|k: int|
        0 <= k < CATEGORIES && kept(t, #[trigger] finds(t, env, host, k)).len()
            > 0 implies exists|i: int|
        0 <= i < all.len() && is_row_of(t, env, host, #[trigger] all[i], k) by {
        let i = row_stands(t, env, host, k, CATEGORIES as nat);
        assert(is_row_of(t, env, host, all[i], k));
    }
}

proof fn row_is_shown(t: Tree, env: Seq<(String, String)>, host: HostOs, r: Row, k: int)
    requires
        is_row_of(t, env, host, r, k),
    ensures
        r.id == face(k).id,
        r.review_only == face(k).review_only,
        r.extra == face(k).extra,
        row(t, face(k), finds(t, env, host, k)).contains(r),
{
    assert(seq![r][0] == r);
    assert(row(t, face(k), finds(t, env, host, k))[0] == r);
}

proof fn row_stands(t: Tree, env: Seq<(String, String)>, host: HostOs, k: int, n: nat) -> (i: int)
    requires
        0 <= k < n,
        kept(t, finds(t, env, host, k)).len() > 0,
    ensures
        0 <= i < rows_upto(t, env, host, n).len(),
        is_row_of(t, env, host, rows_upto(t, env, host, n)[i], k),
    decreases n,
{
    let before = rows_upto(t, env, host, (n - 1) as nat);
    let new = row(t, face(n - 1), finds(t, env, host, n - 1));
    let whole = rows_upto(t, env, host, n);
    if k == n - 1 {
        let i = before.len() as int;
        assert(whole[i] == new[0]);
        assert(new =~= seq![whole[i]]);
        i
    } else {
        let i = row_stands(t, env, host, k, (n - 1) as nat);
        assert(whole[i] == before[i]);
        i
    }
}

/// Every row refuses "Add all" exactly where it is the VM-disks or the
/// previous-Windows row, offers the storage settings exactly where it is the
/// latter, and holds between one and [`CATEGORY_CAP`] items of which none is
/// nested in another; its size is that of these items.
pub proof fn rows_hold(t: Tree, env: Seq<(String, String)>, host: HostOs, r: Row)
    requires
        all_rows(t, env, host).contains(r),
    ensures
        r.review_only == (r.id == "vm_disks"@ || r.id == "windows_old"@),
        r.extra == (if r.id == "windows_old"@ {
            Some("ms-settings:storagesense"@)
        } else {
            None
        }),
        0 < r.items.len() <= CATEGORY_CAP,
        r.items.no_duplicates(),
        forall|a: int, b: int|
            0 <= a < r.items.len() && 0 <= b < r.items.len() && a != b ==> !t.under(
                #[trigger] r.items[a] as int,
                #[trigger] r.items[b] as int,
            ),
        r.size == rollup::capped(disk_sum(t, r.items)),
{
    let all = all_rows(t, env, host);
    let of = rows_of(t, env, host, CATEGORIES as nat);
    let i = all.index_of(r);
    let k = of[i];
    row_is_shown(t, env, host, r, k);
    kept_items_are_apart(t, finds(t, env, host, k));
    assert(row(t, face(k), finds(t, env, host, k))[0] == r);
    if k != 10 {
        ids_differ(k, 10);
    }
    if k != 11 {
        ids_differ(k, 11);
    }
}

/// The rows do not depend on the time: two calls give equal rows.
pub proof fn the_time_changes_no_row(
    tree: &Tree,
    env_roots: &[(String, String)],
    n1: i64,
    n2: i64,
    host: HostOs,
    r1: Vec<QuickWinCategory>,
    r2: Vec<QuickWinCategory>,
)
    requires
        call_ensures(resolve, (tree, env_roots, n1, host), r1),
        call_ensures(resolve, (tree, env_roots, n2, host), r2),
    ensures
        says_rows(r1@) == says_rows(r2@),
{
}

/// The same variables with the same paths, the names of the first wrapped in
/// percent signs, those of the second bare.
pub open spec fn wraps(a: Seq<(String, String)>, b: Seq<(String, String)>) -> bool {
    &&& a.len() == b.len()
    &&& forall|i: int|
        0 <= i < a.len() ==> {
            &&& (#[trigger] a[i]).1@ == b[i].1@
            &&& a[i].0@ == seq!['%'] + b[i].0@ + seq!['%']
            &&& bare(b[i].0@) == b[i].0@
        }
}

proof fn bare_ends(s: Seq<char>)
    requires
        bare(s) == s,
        s.len() > 0,
    ensures
        s[0] != '%',
        s.last() != '%',
{
    stripped_left(s);
    stripped_right(no_percent_left(s));
    if s[0] == '%' {
        stripped_left(s.drop_first());
    } else if s.last() == '%' {
        stripped_right(s.drop_last());
    }
}

proof fn stripped_left(s: Seq<char>)
    ensures
        no_percent_left(s).len() <= s.len(),
    decreases s.len(),
{
    if s.len() > 0 {
        stripped_left(s.drop_first());
    }
}

proof fn stripped_right(s: Seq<char>)
    ensures
        no_percent_right(s).len() <= s.len(),
    decreases s.len(),
{
    if s.len() > 0 {
        stripped_right(s.drop_last());
    }
}

/// A wrapped name, and the bare one, look up the same path.
proof fn lookup_alike(a: Seq<(String, String)>, b: Seq<(String, String)>, x: Seq<char>)
    requires
        wraps(a, b),
        x.len() > 0,
        x[0] != '%',
    ensures
        lookup(a, seq!['%'] + x + seq!['%']) == lookup(b, x),
        lookup(a, x) is None,
        lookup(b, seq!['%'] + x + seq!['%']) is None,
    decreases a.len(),
{
    let key = seq!['%'] + x + seq!['%'];
    if a.len() > 0 {
        let n = b[0].0@;
        assert(a[0].0@ == seq!['%'] + n + seq!['%']);
        assert(a[0].0@[0] == '%');
        assert(a[0].0@.subrange(1, a[0].0@.len() - 1) =~= n);
        assert(key.subrange(1, key.len() - 1) =~= x);
        assert(key[0] == '%');
        if n == key {
            bare_ends(n);
        }
        assert forall|i: int| 0 <= i < a.drop_first().len() implies {
            &&& (#[trigger] a.drop_first()[i]).1@ == b.drop_first()[i].1@
            &&& a.drop_first()[i].0@ == seq!['%'] + b.drop_first()[i].0@ + seq!['%']
            &&& bare(b.drop_first()[i].0@) == b.drop_first()[i].0@
        } by {
            assert(a.drop_first()[i] == a[i + 1]);
        }
        lookup_alike(a.drop_first(), b.drop_first(), x);
    }
}

proof fn root_alike(a: Seq<(String, String)>, b: Seq<(String, String)>, x: Seq<char>)
    requires
        wraps(a, b),
        x.len() > 0,
        x[0] != '%',
        x.last() != '%',
    ensures
        env_root(a, seq!['%'] + x + seq!['%']) == env_root(b, seq!['%'] + x + seq!['%']),
{
    let key = seq!['%'] + x + seq!['%'];
    let tail = x.push('%');
    assert(key.drop_first() =~= tail);
    assert(no_percent_left(tail) == tail);
    assert(tail.drop_last() =~= x);
    assert(no_percent_right(x) == x);
    assert(bare(key) == x);
    lookup_alike(a, b, x);
}

/// The environment root of every location resolves alike.
proof fn roots_alike(a: Seq<(String, String)>, b: Seq<(String, String)>, e: Entry)
    requires
        wraps(a, b),
        catalog::is_env(e.env),
    ensures
        env_root(a, e.env) == env_root(b, e.env),
{
    reveal_strlit("%USERPROFILE%");
    reveal_strlit("USERPROFILE");
    reveal_strlit("%LOCALAPPDATA%");
    reveal_strlit("LOCALAPPDATA");
    reveal_strlit("%HOME%");
    reveal_strlit("HOME");
    if e.env == "%USERPROFILE%"@ {
        assert(e.env =~= seq!['%'] + "USERPROFILE"@ + seq!['%']);
        root_alike(a, b, "USERPROFILE"@);
    } else if e.env == "%LOCALAPPDATA%"@ {
        assert(e.env =~= seq!['%'] + "LOCALAPPDATA"@ + seq!['%']);
        root_alike(a, b, "LOCALAPPDATA"@);
    } else {
        assert(e.env =~= seq!['%'] + "HOME"@ + seq!['%']);
        root_alike(a, b, "HOME"@);
    }
}

proof fn buckets_alike(
    t: Tree,
    a: Seq<(String, String)>,
    b: Seq<(String, String)>,
    table: Seq<Entry>,
    category: Seq<char>,
)
    requires
        wraps(a, b),
        forall|i: int| 0 <= i < table.len() ==> catalog::is_env((#[trigger] table[i]).env),
    ensures
        bucket(t, a, table, category) == bucket(t, b, table, category),
        rooted_disks(t, a, table) == rooted_disks(t, b, table),
    decreases table.len(),
{
    if table.len() > 0 {
        let front = table.drop_last();
        assert forall|i: int| 0 <= i < front.len() implies catalog::is_env(
            (#[trigger] front[i]).env,
        ) by {
            assert(front[i] == table[i]);
        }
        buckets_alike(t, a, b, front, category);
        assert(catalog::is_env(table[table.len() - 1].env));
        roots_alike(a, b, table.last());
    }
}

proof fn rows_alike(
    t: Tree,
    a: Seq<(String, String)>,
    b: Seq<(String, String)>,
    host: HostOs,
    n: nat,
)
    requires
        wraps(a, b),
    ensures
        rows_upto(t, a, host, n) == rows_upto(t, b, host, n),
    decreases n,
{
    if n > 0 {
        rows_alike(t, a, b, host, (n - 1) as nat);
        catalog::every_root_is_a_variable(host);
        buckets_alike(t, a, b, catalog::table(host), face(n - 1).id);
        buckets_alike(t, a, b, catalog::vm_table(), face(n - 1).id);
    }
}

/// Keys with percent signs around them and bare keys give equal rows, in every
/// category.
pub proof fn wrapped_and_bare_keys_agree(
    tree: &Tree,
    wrapped: &[(String, String)],
    unwrapped: &[(String, String)],
    now: i64,
    host: HostOs,
    r1: Vec<QuickWinCategory>,
    r2: Vec<QuickWinCategory>,
)
    requires
        wraps(wrapped@, unwrapped@),
        call_ensures(resolve, (tree, wrapped, now, host), r1),
        call_ensures(resolve, (tree, unwrapped, now, host), r2),
    ensures
        all_rows(*tree, wrapped@, host) == all_rows(*tree, unwrapped@, host),
        says_rows(r1@) == says_rows(r2@),
{
    rows_alike(*tree, wrapped@, unwrapped@, host, CATEGORIES as nat);
}

// ---------------------------------------------------------------------------
// What the finders find
// ---------------------------------------------------------------------------

/// The ids that pass a test from a node down, each once.
proof fn found_below(t: Tree, start: u32, p: spec_fn(u32) -> bool)
    requires
        t.wf(),
    ensures
        t.preorder(start as int).filter(p).no_duplicates(),
        forall|id: u32| #[trigger]
            t.preorder(start as int).filter(p).contains(id) <==> t.under(id as int, start as int)
                && p(id),
{
    t.walk_is_the_subtree(start);
    seqs::filter_members(t.preorder(start as int), p);
    seqs::filter_distinct(t.preorder(start as int), p);
}

/// The large media from a node down are the live local files of at least
/// 10485760 bytes that are video, audio or images, each of them once.
pub proof fn large_media_are_found(tree: &Tree, start: u32, r: Vec<u32>, id: u32)
    requires
        tree.wf(),
        tree.under(id as int, start as int),
        call_ensures(find_large_media, (tree, start), r),
    ensures
        r@.no_duplicates(),
        ({
            let n = tree.arena@[id as int];
            let large = !n.dir && !n.removed && !n.cloud && n.logical >= 10485760;
            &&& n.kind is Video ==> (r@.contains(id) <==> large)
            &&& n.kind is Audio ==> (r@.contains(id) <==> large)
            &&& n.kind is Image ==> (r@.contains(id) <==> large)
            &&& n.kind is Document ==> !r@.contains(id)
            &&& n.kind is Developer ==> !r@.contains(id)
            &&& n.kind is Apps ==> !r@.contains(id)
            &&& n.kind is Archive ==> !r@.contains(id)
            &&& n.kind is System ==> !r@.contains(id)
            &&& n.kind is Other ==> !r@.contains(id)
        }),
        forall|x: u32| #[trigger] r@.contains(x) ==> tree.under(x as int, start as int),
{
    found_below(*tree, start, large_media(*tree));
}

/// The nodes of a name from a node down are those whose name is the text up to
/// ASCII case, files only where folders alone are not asked for; each once.
pub proof fn named_nodes_are_found(
    tree: &Tree,
    start: u32,
    name: &str,
    dirs_only: bool,
    r: Vec<u32>,
)
    requires
        tree.wf(),
        call_ensures(find_named, (tree, start, name, dirs_only), r),
    ensures
        r@.no_duplicates(),
        forall|id: u32| #[trigger]
            r@.contains(id) <==> {
                let u = tree.names@[id as int]@;
                let w = text::utf16(name@);
                &&& tree.under(id as int, start as int)
                &&& dirs_only ==> tree.arena@[id as int].dir
                &&& u.len() == w.len()
                &&& forall|i: int|
                    0 <= i < u.len() ==> text::lower_unit(#[trigger] u[i]) == text::lower_unit(w[i])
            },
{
    let p = named(*tree, name@, dirs_only);
    found_below(*tree, start, p);
    assert forall|id: u32| tree.under(id as int, start as int) implies #[trigger] tree.units(
        id as int,
    ) == tree.names@[id as int]@ by {}
    assert forall|id: u32| #[trigger] r@.contains(id) <==> {
        let u = tree.names@[id as int]@;
        let w = text::utf16(name@);
        &&& tree.under(id as int, start as int)
        &&& dirs_only ==> tree.arena@[id as int].dir
        &&& u.len() == w.len()
        &&& forall|i: int|
            0 <= i < u.len() ==> text::lower_unit(#[trigger] u[i]) == text::lower_unit(w[i])
    } by {
        assert(r@.contains(id) <==> tree.under(id as int, start as int) && p(id));
        if tree.under(id as int, start as int) {
            assert(tree.units(id as int) == tree.names@[id as int]@);
        }
    }
}

/// A folder is a build artifact beside its siblings where it is `target` beside
/// `Cargo.toml` or `pom.xml`, or `bin` or `obj` beside `project.json`, a `.csproj`
/// or a `.vcxproj`; case does not count.
pub proof fn siblings_tell_artifacts(name: &[u16], siblings: &[Vec<u16>], r: bool)
    requires
        call_ensures(build_artifact_with_sibling, (name, siblings), r),
    ensures
        names::same_ci(name@, "target"@) ==> (r <==> exists|i: int|
            0 <= i < siblings@.len() && (names::same_ci(
                (#[trigger] siblings@[i])@,
                "Cargo.toml"@,
            ) || names::same_ci(siblings@[i]@, "pom.xml"@))),
        !names::same_ci(name@, "target"@) && (names::same_ci(name@, "bin"@) || names::same_ci(
            name@,
            "obj"@,
        )) ==> (r <==> exists|i: int|
            0 <= i < siblings@.len() && (names::same_ci(
                (#[trigger] siblings@[i])@,
                "project.json"@,
            ) || names::ends_in_ext(siblings@[i]@, "csproj"@) || names::ends_in_ext(
                siblings@[i]@,
                "vcxproj"@,
            ))),
        !names::same_ci(name@, "target"@) && !names::same_ci(name@, "bin"@) && !names::same_ci(
            name@,
            "obj"@,
        ) ==> !r,
{
    let v = unit_views(siblings@);
    assert forall|i: int| 0 <= i < siblings@.len() implies #[trigger] v[i] == siblings@[i]@ by {}
    assert forall|s: Seq<char>| #[trigger] has_sibling(v, s) <==> exists|i: int|
        0 <= i < siblings@.len() && names::same_ci((#[trigger] siblings@[i])@, s) by {
        if has_sibling(v, s) {
            let i = choose|i: int| 0 <= i < v.len() && names::same_ci(#[trigger] v[i], s);
            assert(names::same_ci(siblings@[i]@, s));
        }
        if exists|i: int|
            0 <= i < siblings@.len() && names::same_ci((#[trigger] siblings@[i])@, s) {
            let i = choose|i: int|
                0 <= i < siblings@.len() && names::same_ci((#[trigger] siblings@[i])@, s);
            assert(names::same_ci(v[i], s));
        }
    }
    assert forall|s: Seq<char>| #[trigger] has_sibling_ext(v, s) <==> exists|i: int|
        0 <= i < siblings@.len() && names::ends_in_ext((#[trigger] siblings@[i])@, s) by {
        if has_sibling_ext(v, s) {
            let i = choose|i: int| 0 <= i < v.len() && names::ends_in_ext(#[trigger] v[i], s);
            assert(names::ends_in_ext(siblings@[i]@, s));
        }
        if exists|i: int|
            0 <= i < siblings@.len() && names::ends_in_ext((#[trigger] siblings@[i])@, s) {
            let i = choose|i: int|
                0 <= i < siblings@.len() && names::ends_in_ext((#[trigger] siblings@[i])@, s);
            assert(names::ends_in_ext(v[i], s));
        }
    }
    assert(has_sibling(v, "Cargo.toml"@) || !has_sibling(v, "Cargo.toml"@));
    assert(has_sibling(v, "pom.xml"@) || !has_sibling(v, "pom.xml"@));
    assert(has_sibling(v, "project.json"@) || !has_sibling(v, "project.json"@));
    assert(has_sibling_ext(v, "csproj"@) || !has_sibling_ext(v, "csproj"@));
    assert(has_sibling_ext(v, "vcxproj"@) || !has_sibling_ext(v, "vcxproj"@));
}

/// The build artifacts from a node down are live folders, each once: every one
/// with a name that tells it wherever it stands, and every one that its siblings
/// tell.
pub proof fn build_artifacts_are_found(
    tree: &Tree,
    start: u32,
    r: Vec<u32>,
    id: u32,
    siblings: &[Vec<u16>],
    beside: bool,
)
    requires
        tree.wf(),
        call_ensures(find_build_artifacts, (tree, start), r),
        0 < id < tree.arena@.len(),
        tree.under(id as int, start as int),
        siblings@.len() == tree.kids@[tree.arena@[id as int].parent as int]@.len(),
        forall|i: int|
            0 <= i < siblings@.len() ==> (#[trigger] siblings@[i])@
                == tree.names@[tree.kids@[tree.arena@[id as int].parent as int]@[i] as int]@,
        exists|name: &[u16]|
            name@ == tree.names@[id as int]@ && #[trigger] call_ensures(
                build_artifact_with_sibling,
                (name, siblings),
                beside,
            ),
    ensures
        r@.no_duplicates(),
        r@.contains(id) <==> {
            let n = tree.arena@[id as int];
            let u = tree.names@[id as int]@;
            &&& n.dir
            &&& !n.removed
            &&& {
                ||| names::same_ci(u, "build"@)
                ||| names::same_ci(u, ".build"@)
                ||| names::same_ci(u, "dist"@)
                ||| names::same_ci(u, ".next"@)
                ||| names::same_ci(u, ".nuxt"@)
                ||| names::same_ci(u, ".turbo"@)
                ||| names::same_ci(u, ".parcel-cache"@)
                ||| names::same_ci(u, ".terraform"@)
                ||| names::same_ci(u, "__pycache__"@)
                ||| names::same_ci(u, ".pytest_cache"@)
                ||| names::same_ci(u, ".mypy_cache"@)
                ||| names::same_ci(u, ".ruff_cache"@)
                ||| names::same_ci(u, ".tox"@)
                ||| names::same_ci(u, ".gradle"@)
                ||| beside
            }
        },
{
    let t = *tree;
    found_below(t, start, artifact(t));
    assert(t.parent_wf(id as int));
    let up = t.at(id as int).parent as int;
    assert(t.kids_wf(up));
    let u = t.units(id as int);
    let kids = t.kids_of(up);
    assert(unit_views(siblings@) =~= names_of(t, kids)) by {
        assert forall|i: int| 0 <= i < kids.len() implies #[trigger] unit_views(siblings@)[i]
            == names_of(t, kids)[i] by {
            let c = kids[i];
            assert(t.has(c as int));
        }
    }
    let list = artifact_names();
    assert(one_of(u, list) <==> {
        ||| names::same_ci(u, list[0])
        ||| names::same_ci(u, list[1])
        ||| names::same_ci(u, list[2])
        ||| names::same_ci(u, list[3])
        ||| names::same_ci(u, list[4])
        ||| names::same_ci(u, list[5])
        ||| names::same_ci(u, list[6])
        ||| names::same_ci(u, list[7])
        ||| names::same_ci(u, list[8])
        ||| names::same_ci(u, list[9])
        ||| names::same_ci(u, list[10])
        ||| names::same_ci(u, list[11])
        ||| names::same_ci(u, list[12])
        ||| names::same_ci(u, list[13])
    });
    assert(artifact(t)(id) <==> r@.contains(id));
}

/// The topmost of the items above an item.
proof fn topmost(t: Tree, items: Seq<u32>, i: int) -> (j: int)
    requires
        t.wf(),
        0 <= i < items.len(),
        t.has(items[i] as int),
    ensures
        0 <= j < items.len(),
        t.under(items[i] as int, items[j] as int),
        outermost(t, items, j),
    decreases items[i], i,
{
    if exists|j: int| 0 <= j < i && #[trigger] items[j] == items[i] {
        let j = choose|j: int| 0 <= j < i && #[trigger] items[j] == items[i];
        topmost(t, items, j)
    } else if exists|j: int|
        0 <= j < items.len() && items[j] != items[i] && t.under(
            items[i] as int,
            #[trigger] items[j] as int,
        ) {
        let j = choose|j: int|
            0 <= j < items.len() && items[j] != items[i] && t.under(
                items[i] as int,
                #[trigger] items[j] as int,
            );
        t.under_is_later(items[i] as int, items[j] as int);
        let k = topmost(t, items, j);
        t.under_trans(items[i] as int, items[j] as int, items[k] as int);
        k
    } else {
        assert(outermost(t, items, i));
        i
    }
}

proof fn outer_complete(t: Tree, items: Seq<u32>, n: nat)
    requires
        n <= items.len(),
    ensures
        forall|j: int|
            0 <= j < n && #[trigger] outermost(t, items, j) ==> outer(t, items, n).contains(
                items[j],
            ),
    decreases n,
{
    if n > 0 {
        outer_complete(t, items, (n - 1) as nat);
        let rest = outer(t, items, (n - 1) as nat);
        let whole = outer(t, items, n);
        assert forall|j: int| 0 <= j < n && #[trigger] outermost(
            t,
            items,
            j,
        ) implies whole.contains(items[j]) by {
            if j < n - 1 {
                let q = rest.index_of(items[j]);
                assert(whole[q] == items[j]);
            } else {
                assert(whole[rest.len() as int] == items[j]);
            }
        }
    }
}

/// A category covers its matches: unless it holds as many items as it may, every
/// match is one of its items or lies below one.
pub proof fn every_match_is_covered(t: Tree, items: Seq<u32>, i: int)
    requires
        t.wf(),
        all_nodes(t, items),
        0 <= i < items.len(),
    ensures
        kept(t, items).len() > 0,
        kept(t, items).len() < 400 ==> exists|k: int|
            0 <= k < kept(t, items).len() && t.under(
                items[i] as int,
                #[trigger] kept(t, items)[k] as int,
            ),
{
    assert(t.has(items[i] as int));
    let j = topmost(t, items, i);
    outer_complete(t, items, items.len());
    let all = outer(t, items, items.len());
    assert(all.contains(items[j]));
    let k = all.index_of(items[j]);
    assert(all[k] == items[j]);
    if kept(t, items).len() < 400 {
        assert(kept(t, items)[k] == items[j]);
    }
}

/// The row of a category, as [`resolve`] gives it.
proof fn resolved_row(
    tree: &Tree,
    env: &[(String, String)],
    now: i64,
    host: HostOs,
    out: Vec<QuickWinCategory>,
    k: int,
)
    requires
        tree.wf(),
        0 <= k < CATEGORIES,
        call_ensures(resolve, (tree, env, now, host), out),
    ensures
        forall|i: int|
            0 <= i < out@.len() && (#[trigger] out@[i]).id@ == face(k).id ==> out@[i].items@ == kept(
                *tree,
                finds(*tree, env@, host, k),
            ) && out@[i].title@ == face(k).title && out@[i].icon@ == face(k).icon
                && out@[i].items@.len() > 0,
        kept(*tree, finds(*tree, env@, host, k)).len() > 0 ==> exists|i: int|
            0 <= i < out@.len() && (#[trigger] out@[i]).id@ == face(k).id,
{
    let t = *tree;
    let all = all_rows(t, env@, host);
    let of = rows_of(t, env@, host, CATEGORIES as nat);
    rows_stand_largest_first(all);
    let sorted = by_size(all);
    assert(says_rows(out@) == sorted);
    assert forall|i: int|
        0 <= i < out@.len() && (#[trigger] out@[i]).id@ == face(k).id implies out@[i].items@ == kept(
        t,
        finds(t, env@, host, k),
    ) && out@[i].title@ == face(k).title && out@[i].icon@ == face(k).icon && out@[i].items@.len()
        > 0 by {
        let s = out@[i].says();
        assert(says_rows(out@)[i] == s);
        same_members(sorted, all, s);
        assert(sorted.contains(s));
        let q = all.index_of(s);
        let kk = of[q];
        row_is_shown(t, env@, host, s, kk);
        assert(row(t, face(kk), finds(t, env@, host, kk))[0] == s);
        if kk != k {
            ids_differ(kk, k);
        }
    }
    if kept(t, finds(t, env@, host, k)).len() > 0 {
        let q = row_stands(t, env@, host, k, CATEGORIES as nat);
        let s = all[q];
        row_is_shown(t, env@, host, s, k);
        same_members(sorted, all, s);
        assert(all.contains(s));
        let i = sorted.index_of(s);
        assert(says_rows(out@)[i] == out@[i].says());
        assert(out@[i].id@ == face(k).id);
    }
}

/// The row of a category holds matches alone, and covers each of them unless it
/// is full; where there is a match there is a row.
pub open spec fn covers(
    t: Tree,
    out: Seq<QuickWinCategory>,
    id: Seq<char>,
    p: spec_fn(u32) -> bool,
) -> bool {
    &&& forall|i: int, m: int|
        0 <= i < out.len() && out[i].id@ == id && 0 <= m < out[i].items@.len() ==> t.under(
            #[trigger] out[i].items@[m] as int,
            t.root as int,
        ) && p(out[i].items@[m])
    &&& forall|x: u32| #[trigger]
        t.under(x as int, t.root as int) && p(x) ==> exists|i: int|
            {
                &&& 0 <= i < out.len()
                &&& (#[trigger] out[i]).id@ == id
                &&& out[i].items@.len() < 400 ==> exists|m: int|
                    0 <= m < out[i].items@.len() && t.under(
                        x as int,
                        #[trigger] out[i].items@[m] as int,
                    )
            }
}

proof fn row_covers(
    tree: &Tree,
    env: &[(String, String)],
    now: i64,
    host: HostOs,
    out: Vec<QuickWinCategory>,
    k: int,
    p: spec_fn(u32) -> bool,
    q: spec_fn(u32) -> bool,
)
    requires
        tree.wf(),
        0 <= k < CATEGORIES,
        call_ensures(resolve, (tree, env, now, host), out),
        finds(*tree, env@, host, k) == tree.preorder(tree.root as int).filter(p),
        forall|x: u32| #[trigger] tree.under(x as int, tree.root as int) ==> (q(x) <==> p(x)),
    ensures
        covers(*tree, out@, face(k).id, q),
{
    let t = *tree;
    let items = finds(t, env@, host, k);
    let id = face(k).id;
    resolved_row(tree, env, now, host, out, k);
    found_below(t, t.root, p);
    kept_items_are_apart(t, items);
    preorder_nodes(t, t.root);
    assert(all_nodes(t, items)) by {
        assert forall|i: int| 0 <= i < items.len() implies t.has(#[trigger] items[i] as int) by {
            assert(items.contains(items[i]));
        }
    }
    assert forall|i: int, m: int|
        0 <= i < out@.len() && out@[i].id@ == id && 0 <= m < out@[i].items@.len() implies t.under(
        #[trigger] out@[i].items@[m] as int,
        t.root as int,
    ) && q(out@[i].items@[m]) by {
        assert(out@[i].items@ == kept(t, items));
        assert(items.contains(kept(t, items)[m]));
    }
    assert forall|x: u32| #[trigger] t.under(x as int, t.root as int) && q(x) implies exists|i: int|
        {
            &&& 0 <= i < out@.len()
            &&& (#[trigger] out@[i]).id@ == id
            &&& out@[i].items@.len() < 400 ==> exists|m: int|
                0 <= m < out@[i].items@.len() && t.under(
                    x as int,
                    #[trigger] out@[i].items@[m] as int,
                )
        } by {
        assert(items.contains(x));
        let j = items.index_of(x);
        every_match_is_covered(t, items, j);
        let i = choose|i: int| 0 <= i < out@.len() && (#[trigger] out@[i]).id@ == id;
        assert(out@[i].items@ == kept(t, items));
        if out@[i].items@.len() < 400 {
            let m = choose|m: int|
                0 <= m < kept(t, items).len() && t.under(
                    items[j] as int,
                    #[trigger] kept(t, items)[m] as int,
                );
            assert(t.under(x as int, out@[i].items@[m] as int));
        }
    }
}

/// The rows that look everywhere: folders named `node_modules`, folders named
/// `Windows.old` (case does not count), and live local video, audio and image
/// files of at least 10485760 bytes, anywhere in the scan.
pub proof fn rows_look_everywhere(
    tree: &Tree,
    env: &[(String, String)],
    now: i64,
    host: HostOs,
    out: Vec<QuickWinCategory>,
)
    requires
        tree.wf(),
        call_ensures(resolve, (tree, env, now, host), out),
    ensures
        covers(
            *tree,
            out@,
            "node_modules"@,
            |x: u32|
                tree.arena@[x as int].dir && names::same_ci(
                    tree.names@[x as int]@,
                    "node_modules"@,
                ),
        ),
        covers(
            *tree,
            out@,
            "windows_old"@,
            |x: u32|
                tree.arena@[x as int].dir && names::same_ci(
                    tree.names@[x as int]@,
                    "Windows.old"@,
                ),
        ),
        covers(
            *tree,
            out@,
            "large_media"@,
            |x: u32|
                {
                    let n = tree.arena@[x as int];
                    &&& !n.dir && !n.removed && !n.cloud
                    &&& n.logical >= 10485760
                    &&& n.kind is Video || n.kind is Audio || n.kind is Image
                },
        ),
        forall|i: int, j: int|
            0 <= i < j < out@.len() ==> (#[trigger] out@[i]).size >= (#[trigger] out@[j]).size
                && out@[i].id@ != out@[j].id@,
{
    let t = *tree;
    row_covers(
        tree,
        env,
        now,
        host,
        out,
        7,
        named(t, "node_modules"@, true),
        |x: u32|
            tree.arena@[x as int].dir && names::same_ci(tree.names@[x as int]@, "node_modules"@),
    );
    row_covers(
        tree,
        env,
        now,
        host,
        out,
        11,
        named(t, "Windows.old"@, true),
        |x: u32|
            tree.arena@[x as int].dir && names::same_ci(tree.names@[x as int]@, "Windows.old"@),
    );
    row_covers(
        tree,
        env,
        now,
        host,
        out,
        9,
        large_media(t),
        |x: u32|
            {
                let n = tree.arena@[x as int];
                &&& !n.dir && !n.removed && !n.cloud
                &&& n.logical >= 10485760
                &&& n.kind is Video || n.kind is Audio || n.kind is Image
            },
    );
    let all = all_rows(t, env@, host);
    rows_stand_largest_first(all);
    every_category_has_its_row(t, env@, host);
    let sorted = by_size(all);
    rows_stay_apart(all, sorted);
    assert forall|i: int, j: int| 0 <= i < j < out@.len() implies (#[trigger] out@[i]).size >= (
    #[trigger] out@[j]).size && out@[i].id@ != out@[j].id@ by {
        assert(says_rows(out@)[i] == out@[i].says() && says_rows(out@)[j] == out@[j].says());
        assert(sorted[i].size >= sorted[j].size);
        assert(sorted[i].id != sorted[j].id);
    }
}

proof fn same_members(a: Seq<Row>, b: Seq<Row>, x: Row)
    requires
        a.to_multiset() == b.to_multiset(),
    ensures
        a.contains(x) <==> b.contains(x),
{
    a.to_multiset_ensures();
    b.to_multiset_ensures();
    assert(a.contains(x) <==> a.to_multiset().count(x) > 0);
    assert(b.contains(x) <==> b.to_multiset().count(x) > 0);
}

/// Rows with different ids have different ids in any order.
proof fn rows_stay_apart(a: Seq<Row>, b: Seq<Row>)
    requires
        a.to_multiset() == b.to_multiset(),
        forall|i: int, j: int|
            0 <= i < j < a.len() ==> (#[trigger] a[i]).id != (#[trigger] a[j]).id,
    ensures
        forall|i: int, j: int|
            0 <= i < j < b.len() ==> (#[trigger] b[i]).id != (#[trigger] b[j]).id,
{
    a.to_multiset_ensures();
    b.to_multiset_ensures();
    assert(a.no_duplicates());
    a.lemma_multiset_has_no_duplicates();
    assert(b.no_duplicates()) by {
        assert forall|x: Row| b.to_multiset().contains(x) implies b.to_multiset().count(x) == 1 by {
            assert(a.to_multiset().contains(x));
        }
        b.lemma_multiset_has_no_duplicates_conv();
    }
    assert forall|i: int, j: int| 0 <= i < j < b.len() implies (#[trigger] b[i]).id != (
    #[trigger] b[j]).id by {
        same_members(a, b, b[i]);
        same_members(a, b, b[j]);
        assert(b.contains(b[i]) && b.contains(b[j]));
        let p = a.index_of(b[i]);
        let q = a.index_of(b[j]);
        assert(a[p] == b[i] && a[q] == b[j]);
        if p < q {
            assert(a[p].id != a[q].id);
        } else if q < p {
            assert(a[q].id != a[p].id);
        }
    }
}

/// What one more segment reaches: the live children of what was reached that the
/// segment names, or all of them for `*`.
proof fn step_members(t: Tree, current: Seq<u32>, seg: Seq<char>)
    ensures
        forall|x: u32| #[trigger]
            step(t, current, seg).contains(x) <==> exists|i: int|
                0 <= i < current.len() && t.kids_of(#[trigger] current[i] as int).contains(x)
                    && takes(t, seg)(x),
    decreases current.len(),
{
    if current.len() > 0 {
        let less = current.drop_last();
        step_members(t, less, seg);
        let kids = t.kids_of(current.last() as int);
        let p = takes(t, seg);
        seqs::filter_members(kids, p);
        let a = step(t, less, seg);
        let b = kids.filter(p);
        assert forall|x: u32| #[trigger] step(t, current, seg).contains(x) <==> exists|i: int|
            0 <= i < current.len() && t.kids_of(#[trigger] current[i] as int).contains(x) && p(
                x,
            ) by {
            let s = a + b;
            if s.contains(x) {
                let k = s.index_of(x);
                assert(s[k] == x);
                if k < a.len() {
                    assert(a[k] == x);
                    assert(a.contains(x));
                    let i = choose|i: int|
                        0 <= i < less.len() && t.kids_of(#[trigger] less[i] as int).contains(x)
                            && p(x);
                    assert(current[i] == less[i]);
                } else {
                    assert(b[k - a.len()] == x);
                    assert(b.contains(x));
                    assert(current[current.len() - 1] == current.last());
                }
            }
            if exists|i: int|
                0 <= i < current.len() && t.kids_of(#[trigger] current[i] as int).contains(x) && p(
                    x,
                ) {
                let i = choose|i: int|
                    0 <= i < current.len() && t.kids_of(#[trigger] current[i] as int).contains(x)
                        && p(x);
                if i < less.len() {
                    assert(less[i] == current[i]);
                    assert(a.contains(x));
                    let k = a.index_of(x);
                    assert(s[k] == x);
                } else {
                    assert(b.contains(x));
                    let k = b.index_of(x);
                    assert(s[a.len() + k] == x);
                }
            }
        }
    }
}

proof fn expand_last(t: Tree, current: Seq<u32>, segs: Seq<Seq<char>>, seg: Seq<char>)
    ensures
        expand(t, current, segs.push(seg)) == step(t, expand(t, current, segs), seg),
    decreases segs.len(),
{
    let more = segs.push(seg);
    if segs.len() == 0 {
        assert(more.drop_first() =~= Seq::empty());
        assert(expand(t, step(t, current, seg), more.drop_first()) == step(t, current, seg));
    } else {
        assert(more.drop_first() =~= segs.drop_first().push(seg));
        expand_last(t, step(t, current, segs[0]), segs.drop_first(), seg);
    }
}

/// A node matches a location with one segment more exactly if it is live, its
/// name is the segment up to ASCII case or the segment is `*`, and its parent
/// matches the location without it; with no segments the location itself
/// matches, unless it is the scan root, whose children match a single segment
/// all the same.
pub proof fn a_segment_more_goes_one_level_down(
    tree: &Tree,
    root: &str,
    segs: &[&str],
    more: &[&str],
    a: Vec<u32>,
    b: Vec<u32>,
    at: Option<u32>,
    x: u32,
)
    requires
        tree.wf(),
        0 < x < tree.arena@.len(),
        more@.len() == segs@.len() + 1,
        forall|i: int| 0 <= i < segs@.len() ==> (#[trigger] more@[i])@ == segs@[i]@,
        call_ensures(match_pattern, (tree, root, segs), a),
        call_ensures(match_pattern, (tree, root, more), b),
        call_ensures(Tree::resolve_display_path, (tree, root), at),
    ensures
        segs@.len() == 0 ==> (a@.contains(x) <==> at == Some(x)),
        b@.contains(x) <==> {
            let n = tree.arena@[x as int];
            &&& !n.removed
            &&& more@.last()@ == seq!['*'] || names::same_ci(tree.names@[x as int]@, more@.last()@)
            &&& a@.contains(n.parent) || (segs@.len() == 0 && at == Some(n.parent))
        },
{
    let t = *tree;
    let s = text::texts(segs@);
    let m = text::texts(more@);
    let seg = more@.last()@;
    assert(m =~= s.push(seg)) by {
        assert forall|i: int| 0 <= i < m.len() implies #[trigger] m[i] == s.push(seg)[i] by {
            assert(m[i] == more@[i]@);
            if i < s.len() {
                assert(s[i] == segs@[i]@);
            }
        }
    }
    assert(t.parent_wf(x as int));
    let up = t.at(x as int).parent;
    match t.located(locate::normal(root@)) {
        Some(start) => {
            let one = seq![start];
            let ea = expand(t, one, s);
            let eb = expand(t, one, m);
            expand_last(t, one, s, seg);
            step_members(t, ea, seg);
            seqs::filter_members(ea, not_root(t));
            seqs::filter_members(eb, not_root(t));
            assert(eb.contains(x) <==> ea.contains(up) && takes(t, seg)(x)) by {
                if eb.contains(x) {
                    let i = choose|i: int|
                        0 <= i < ea.len() && t.kids_of(#[trigger] ea[i] as int).contains(x)
                            && takes(t, seg)(x);
                    let list = t.kids_of(ea[i] as int);
                    let j = list.index_of(x);
                    assert(t.kids_wf(ea[i] as int));
                    assert(list[j] == x);
                    assert(ea[i] == up);
                    assert(ea.contains(up));
                }
                if ea.contains(up) && takes(t, seg)(x) {
                    let i = ea.index_of(up);
                    assert(ea[i] == up);
                    assert(t.kids_of(ea[i] as int).contains(x));
                }
            }
            if s.len() == 0 {
                assert(ea == one);
                assert(one[0] == start);
                assert(one.contains(up) <==> up == start);
                assert(one.contains(x) <==> x == start);
            } else {
                expand_last(t, one, s.drop_last(), s.last());
                assert(s.drop_last().push(s.last()) =~= s);
                let eo = expand(t, one, s.drop_last());
                step_members(t, eo, s.last());
                if ea.contains(up) {
                    let i = choose|i: int|
                        0 <= i < eo.len() && t.kids_of(#[trigger] eo[i] as int).contains(up)
                            && takes(t, s.last())(up);
                    let list = t.kids_of(eo[i] as int);
                    let j = list.index_of(up);
                    assert(t.kids_wf(eo[i] as int));
                    assert(list[j] == up);
                    assert(up > 0);
                }
            }
        },
        None => {},
    }
}

} // verus!
