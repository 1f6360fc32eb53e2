//! The folders that applications leave behind, and whose they are.
use crate::applications::{AppIdentity, LeftoverGroup};
use crate::locate;
use crate::rollup;
use crate::scan;
use crate::seqs;
use crate::text;
use vstd::prelude::*;

verus! {

/// A folder directly below a leftover root.
#[derive(Clone, Debug)]
pub struct RootChild {
    pub name: String,
    pub size: u64,
    /// The folders in it with their sizes, where it was expanded.
    pub nested: Vec<(String, u64)>,
}

/// A leftover root as it was listed, once for all applications.
#[derive(Clone, Debug)]
pub struct RootListing {
    /// Index of the root.
    pub label_idx: usize,
    pub path: String,
    pub children: Vec<RootChild>,
}

/// The path of a folder directly below another.
pub open spec fn below(root: Seq<char>, child: Seq<char>) -> Seq<char> {
    locate::no_tail_slash(root).push('\\') + child
}

/// The path of a folder directly below another.
pub fn child_path(root: &str, child: &str) -> (r: String)
    ensures
        r@ == below(root@, child@),
{
    let cs = text::chars_of(root);
    let mut to: usize = cs.len();
    assert(cs@.take(to as int) =~= cs@);
    while to > 0 && cs[to - 1] == '\\'
        invariant
            to <= cs.len(),
            locate::no_tail_slash(cs@) == locate::no_tail_slash(cs@.take(to as int)),
        decreases to,
    {
        assert(cs@.take(to as int).drop_last() =~= cs@.take(to - 1));
        to -= 1;
    }
    let kept = text::slice_chars(cs.as_slice(), 0, to);
    assert(kept@ =~= cs@.take(to as int));
    let mut out = text::string_of(kept.as_slice());
    out.push('\\');
    out.append(child);
    out
}

// ---------------------------------------------------------------------------
// Expanding children
// ---------------------------------------------------------------------------

/// The first child with the name.
pub open spec fn first_child(children: Seq<RootChild>, name: Seq<char>) -> Option<int>
    decreases children.len(),
{
    if children.len() == 0 {
        None
    } else {
        match first_child(children.drop_last(), name) {
            Some(c) => Some(c),
            None => if children.last().name@ == name {
                Some(children.len() - 1)
            } else {
                None
            },
        }
    }
}

proof fn first_child_bound(children: Seq<RootChild>, name: Seq<char>)
    ensures
        first_child(children, name) matches Some(c) ==> 0 <= c < children.len()
            && children[c].name@ == name,
    decreases children.len(),
{
    if children.len() > 0 {
        first_child_bound(children.drop_last(), name);
    }
}

/// Only the names decide which child is the first.
proof fn first_child_by_name(a: Seq<RootChild>, b: Seq<RootChild>, name: Seq<char>)
    requires
        a.len() == b.len(),
        forall|i: int| 0 <= i < a.len() ==> (#[trigger] a[i]).name@ == b[i].name@,
    ensures
        first_child(a, name) == first_child(b, name),
    decreases a.len(),
{
    if a.len() > 0 {
        let fa = a.drop_last();
        let fb = b.drop_last();
        assert(a[a.len() - 1].name@ == b[a.len() - 1].name@);
        assert forall|i: int| 0 <= i < fa.len() implies (#[trigger] fa[i]).name@ == fb[i].name@ by {
            assert(a[i].name@ == b[i].name@);
        }
        first_child_by_name(fa, fb, name);
    }
}

/// The first child with the name.
fn find_child(children: &Vec<RootChild>, name: &str) -> (r: Option<usize>)
    ensures
        match r {
            Some(c) => first_child(children@, name@) == Some(c as int) && c < children@.len(),
            None => first_child(children@, name@) is None,
        },
{
    let mut i: usize = 0;
    while i < children.len()
        invariant
            i <= children.len(),
            first_child(children@.take(i as int), name@) is None,
        decreases children.len() - i,
    {
        assert(children@.take(i + 1).drop_last() =~= children@.take(i as int));
        assert(children@.take(i + 1).last() == children@[i as int]);
        if text::same_str(children[i].name.as_str(), name) {
            proof {
                first_child_grows(children@, i + 1, name@);
            }
            return Some(i);
        }
        i += 1;
    }
    assert(children@.take(i as int) =~= children@);
    None
}

proof fn first_child_grows(children: Seq<RootChild>, n: int, name: Seq<char>)
    requires
        0 <= n <= children.len(),
        first_child(children.take(n), name) is Some,
    ensures
        first_child(children, name) == first_child(children.take(n), name),
    decreases children.len(),
{
    if n < children.len() {
        let front = children.drop_last();
        assert(front.take(n) =~= children.take(n));
        first_child_grows(front, n, name);
    } else {
        assert(children.take(n) =~= children);
    }
}

/// The request to expand a child names child `c` of root `r`.
pub open spec fn asks_for(
    roots: Seq<RootListing>,
    request: (usize, String),
    r: int,
    c: int,
) -> bool {
    &&& request.0 == r
    &&& r < roots.len()
    &&& first_child(roots[r].children@, request.1@) == Some(c)
}

/// The folder to list for a request: none where no root or child has the name.
pub open spec fn folder_for(roots: Seq<RootListing>, request: (usize, String)) -> Option<Seq<char>> {
    if request.0 < roots.len() && first_child(
        roots[request.0 as int].children@,
        request.1@,
    ) is Some {
        Some(below(roots[request.0 as int].path@, request.1@))
    } else {
        None
    }
}

/// The folders to list for the children to expand.
pub fn folders_to_list(roots: &[RootListing], requests: &[(usize, String)]) -> (r: Vec<
    Option<String>,
>)
    ensures
        r@.len() == requests@.len(),
        forall|i: int|
            0 <= i < r@.len() ==> scan::text_of(#[trigger] r@[i]) == folder_for(
                roots@,
                requests@[i],
            ),
{
    let mut out: Vec<Option<String>> = Vec::new();
    let mut i: usize = 0;
    while i < requests.len()
        invariant
            i <= requests.len(),
            out@.len() == i,
            forall|k: int|
                0 <= k < i ==> scan::text_of(#[trigger] out@[k]) == folder_for(
                    roots@,
                    requests@[k],
                ),
        decreases requests.len() - i,
    {
        let at: usize = requests[i].0;
        let name = requests[i].1.as_str();
        let mut path: Option<String> = None;
        if at < roots.len() {
            if find_child(&roots[at].children, name).is_some() {
                path = Some(child_path(roots[at].path.as_str(), name));
            }
        }
        out.push(path);
        i += 1;
    }
    out
}

/// What the folders in child `c` of root `r` are after the first `n` requests: the
/// last listing for the child, or what they were.
pub open spec fn nested_after(
    roots: Seq<RootListing>,
    requests: Seq<(usize, String)>,
    found: Seq<Option<Vec<(String, u64)>>>,
    n: nat,
    r: int,
    c: int,
) -> Seq<(String, u64)>
    decreases n,
{
    if n == 0 {
        roots[r].children@[c].nested@
    } else if asks_for(roots, requests[n - 1], r, c) && found[n - 1] is Some {
        found[n - 1]->0@
    } else {
        nested_after(roots, requests, found, (n - 1) as nat, r, c)
    }
}

/// The same roots and children, whatever is nested in them.
pub open spec fn same_but_nested(a: Seq<RootListing>, b: Seq<RootListing>) -> bool {
    &&& a.len() == b.len()
    &&& forall|r: int|
        0 <= r < a.len() ==> {
            &&& (#[trigger] a[r]).label_idx == b[r].label_idx
            &&& a[r].path == b[r].path
            &&& a[r].children@.len() == b[r].children@.len()
        }
    &&& forall|r: int, c: int|
        0 <= r < a.len() && 0 <= c < a[r].children@.len() ==> {
            &&& (#[trigger] a[r].children@[c]).name == b[r].children@[c].name
            &&& a[r].children@[c].size == b[r].children@[c].size
        }
}

/// Fills in what is nested in the children to expand: each request with a listing
/// replaces what was nested in its child.
pub fn fill_nested(
    roots: &mut Vec<RootListing>,
    requests: &[(usize, String)],
    found: Vec<Option<Vec<(String, u64)>>>,
)
    requires
        found@.len() == requests@.len(),
    ensures
        same_but_nested(final(roots)@, old(roots)@),
        forall|r: int, c: int|
            0 <= r < old(roots)@.len() && 0 <= c < old(roots)@[r].children@.len() ==> (
            #[trigger] final(roots)@[r].children@[c]).nested@ == nested_after(
                old(roots)@,
                requests@,
                found@,
                requests@.len(),
                r,
                c,
            ),
{
    let ghost before = roots@;
    let ghost given = found@;
    let mut found = found;
    let mut i: usize = 0;
    while i < requests.len()
        invariant
            i <= requests.len(),
            found@.len() == requests@.len(),
            given.len() == requests@.len(),
            forall|k: int| i <= k < found@.len() ==> #[trigger] found@[k] == given[k],
            same_but_nested(roots@, before),
            forall|r: int, c: int|
                0 <= r < before.len() && 0 <= c < before[r].children@.len() ==> (
                #[trigger] roots@[r].children@[c]).nested@ == nested_after(
                    before,
                    requests@,
                    given,
                    i as nat,
                    r,
                    c,
                ),
        decreases requests.len() - i,
    {
        let at: usize = requests[i].0;
        let mut taken: Option<Vec<(String, u64)>> = None;
        std::mem::swap(&mut taken, &mut found[i]);
        assert(taken == given[i as int]);
        let ghost mid = roots@;
        if at < roots.len() {
            proof {
                assert(mid[at as int].children@.len() == before[at as int].children@.len());
                assert forall|k: int| 0 <= k < mid[at as int].children@.len() implies (
                #[trigger] mid[at as int].children@[k]).name@ == before[at as int].children@[k].name@ by {}
                first_child_by_name(
                    mid[at as int].children@,
                    before[at as int].children@,
                    requests@[i as int].1@,
                );
            }
            let hit = find_child(&roots[at].children, requests[i].1.as_str());
            if let Some(c) = hit {
                if let Some(list) = taken {
                    set_nested(roots, at, c, list);
                }
            }
        }
        proof {
            assert forall|r: int, c: int|
                0 <= r < before.len() && 0 <= c < before[r].children@.len() implies (
            #[trigger] roots@[r].children@[c]).nested@ == nested_after(
                before,
                requests@,
                given,
                (i + 1) as nat,
                r,
                c,
            ) by {
                assert(mid[r].children@[c].nested@ == nested_after(
                    before,
                    requests@,
                    given,
                    i as nat,
                    r,
                    c,
                ));
            }
        }
        i += 1;
    }
}

/// Replaces what is nested in one child.
fn set_nested(roots: &mut Vec<RootListing>, at: usize, c: usize, list: Vec<(String, u64)>)
    requires
        at < old(roots)@.len(),
        c < old(roots)@[at as int].children@.len(),
    ensures
        same_but_nested(final(roots)@, old(roots)@),
        forall|r: int, k: int|
            0 <= r < old(roots)@.len() && 0 <= k < old(roots)@[r].children@.len() ==> (
            #[trigger] final(roots)@[r].children@[k]).nested@ == (if r == at && k == c {
                list@
            } else {
                old(roots)@[r].children@[k].nested@
            }),
{
    let root = &mut roots[at];
    let child = &mut root.children[c];
    child.nested = list;
}

// ---------------------------------------------------------------------------
// Whose folder it is
// ---------------------------------------------------------------------------

/// Both names are the same, ASCII case aside, and not empty.
pub open spec fn same_folder(a: Seq<char>, b: Seq<char>) -> bool {
    a.len() > 0 && text::lower(a) == text::lower(b)
}

/// Whether both names are the same.
fn is_same_folder(a: &str, b: &str) -> (r: bool)
    ensures
        r == same_folder(a@, b@),
{
    let ca = text::chars_of(a);
    let cb = text::chars_of(b);
    let la = text::to_lower(ca.as_slice());
    let lb = text::to_lower(cb.as_slice());
    ca.len() > 0 && text::same_chars(la.as_slice(), lb.as_slice())
}

/// A folder with the name belongs to the application: it is named like the
/// application, its install folder or its package family.
pub open spec fn owns(i: AppIdentity, name: Seq<char>) -> bool {
    ||| same_folder(i.display_name@, name)
    ||| same_folder(i.install_folder@, name)
    ||| same_folder(i.family_name@, name)
}

/// Whether a folder with the name belongs to the application.
fn is_owned(i: &AppIdentity, name: &str) -> (r: bool)
    ensures
        r == owns(*i, name@),
{
    is_same_folder(i.display_name.as_str(), name) || is_same_folder(
        i.install_folder.as_str(),
        name,
    ) || is_same_folder(i.family_name.as_str(), name)
}

/// Some application has the publisher.
pub open spec fn is_publisher(ids: Seq<AppIdentity>, name: Seq<char>) -> bool {
    exists|k: int| 0 <= k < ids.len() && same_folder((#[trigger] ids[k]).publisher@, name)
}

fn names_publisher(ids: &[AppIdentity], name: &str) -> (r: bool)
    ensures
        r == is_publisher(ids@, name@),
{
    let mut k: usize = 0;
    while k < ids.len()
        invariant
            k <= ids.len(),
            forall|j: int| 0 <= j < k ==> !same_folder((#[trigger] ids@[j]).publisher@, name@),
        decreases ids.len() - k,
    {
        if is_same_folder(ids[k].publisher.as_str(), name) {
            return true;
        }
        k += 1;
    }
    false
}

/// The children of root `r` that are named like a publisher.
pub open spec fn publishers_in(
    r: int,
    children: Seq<RootChild>,
    ids: Seq<AppIdentity>,
) -> Seq<(int, Seq<char>)>
    decreases children.len(),
{
    if children.len() == 0 {
        Seq::empty()
    } else {
        let rest = publishers_in(r, children.drop_last(), ids);
        if is_publisher(ids, children.last().name@) {
            rest.push((r, children.last().name@))
        } else {
            rest
        }
    }
}

/// The children that are named like a publisher, root by root.
pub open spec fn publishers(roots: Seq<RootListing>, ids: Seq<AppIdentity>) -> Seq<
    (int, Seq<char>),
>
    decreases roots.len(),
{
    if roots.len() == 0 {
        Seq::empty()
    } else {
        publishers(roots.drop_last(), ids) + publishers_in(
            roots.len() - 1,
            roots.last().children@,
            ids,
        )
    }
}

/// What a list of requests says.
pub open spec fn says_requests(r: Seq<(usize, String)>) -> Seq<(int, Seq<char>)> {
    r.map_values(|x: (usize, String)| (x.0 as int, x.1@))
}

/// The children to expand: those named like a publisher, which may hold a folder
/// per application.
pub fn publisher_children_to_expand(roots: &[RootListing], ids: &[AppIdentity]) -> (r: Vec<
    (usize, String),
>)
    ensures
        says_requests(r@) == publishers(roots@, ids@),
{
    let mut out: Vec<(usize, String)> = Vec::new();
    let mut i: usize = 0;
    assert(says_requests(out@) =~= publishers(roots@.take(0), ids@));
    while i < roots.len()
        invariant
            i <= roots.len(),
            says_requests(out@) == publishers(roots@.take(i as int), ids@),
        decreases roots.len() - i,
    {
        let children = &roots[i].children;
        let ghost done = says_requests(out@);
        let mut c: usize = 0;
        assert(done + publishers_in(i as int, children@.take(0), ids@) =~= done);
        while c < children.len()
            invariant
                c <= children.len(),
                says_requests(out@) == done + publishers_in(
                    i as int,
                    children@.take(c as int),
                    ids@,
                ),
            decreases children.len() - c,
        {
            let ghost head = children@.take(c as int);
            assert(children@.take(c + 1).drop_last() =~= head);
            assert(children@.take(c + 1).last() == children@[c as int]);
            if names_publisher(ids, children[c].name.as_str()) {
                let ghost before = says_requests(out@);
                let ghost one = (i as int, children@[c as int].name@);
                out.push((i, children[c].name.clone()));
                assert(says_requests(out@) =~= before.push(one));
                assert(before.push(one) =~= done + publishers_in(i as int, head, ids@).push(one));
            }
            c += 1;
        }
        proof {
            assert(children@.take(c as int) =~= children@);
            assert(roots@.take(i + 1).drop_last() =~= roots@.take(i as int));
            assert(roots@.take(i + 1).last() == roots@[i as int]);
        }
        i += 1;
    }
    assert(roots@.take(i as int) =~= roots@);
    out
}

/// The nested folders that belong to the application, with paths and sizes.
pub open spec fn nested_hits(
    i: AppIdentity,
    folder: Seq<char>,
    nested: Seq<(String, u64)>,
) -> Seq<(Seq<char>, u64)>
    decreases nested.len(),
{
    if nested.len() == 0 {
        Seq::empty()
    } else {
        let rest = nested_hits(i, folder, nested.drop_last());
        if owns(i, nested.last().0@) {
            rest.push((below(folder, nested.last().0@), nested.last().1))
        } else {
            rest
        }
    }
}

/// The folders of an application at one child of a root: the child itself, or,
/// where the child is named like its publisher, folders in it.
pub open spec fn child_hits(i: AppIdentity, root: Seq<char>, c: RootChild) -> Seq<
    (Seq<char>, u64),
> {
    if owns(i, c.name@) {
        seq![(below(root, c.name@), c.size)]
    } else if same_folder(i.publisher@, c.name@) {
        nested_hits(i, below(root, c.name@), c.nested@)
    } else {
        Seq::empty()
    }
}

/// The folders of an application below a root, in listing order.
pub open spec fn hits(i: AppIdentity, root: Seq<char>, children: Seq<RootChild>) -> Seq<
    (Seq<char>, u64),
>
    decreases children.len(),
{
    if children.len() == 0 {
        Seq::empty()
    } else {
        hits(i, root, children.drop_last()) + child_hits(i, root, children.last())
    }
}

/// The sum of the sizes.
pub open spec fn hit_bytes(h: Seq<(Seq<char>, u64)>) -> int
    decreases h.len(),
{
    if h.len() == 0 {
        0
    } else {
        hit_bytes(h.drop_last()) + h.last().1
    }
}

proof fn hit_bytes_is_nat(h: Seq<(Seq<char>, u64)>)
    ensures
        hit_bytes(h) >= 0,
    decreases h.len(),
{
    if h.len() > 0 {
        hit_bytes_is_nat(h.drop_last());
    }
}

/// The group holds these folders.
pub open spec fn holds(g: LeftoverGroup, h: Seq<(Seq<char>, u64)>) -> bool {
    &&& scan::strings(g.paths@) == h.map_values(|x: (Seq<char>, u64)| x.0)
    &&& g.size == rollup::capped(hit_bytes(h))
}

/// Adds one folder to a group.
fn hold(g: &mut LeftoverGroup, path: String, size: u64, Ghost(h): Ghost<Seq<(Seq<char>, u64)>>)
    requires
        holds(*old(g), h),
    ensures
        holds(*final(g), h.push((path@, size))),
        final(g).label_idx == old(g).label_idx,
{
    proof {
        hit_bytes_is_nat(h);
        assert(h.push((path@, size)).drop_last() =~= h);
    }
    g.size = g.size.saturating_add(size);
    let ghost before = scan::strings(g.paths@);
    g.paths.push(path);
    assert(scan::strings(g.paths@) =~= before.push(path@));
    assert(h.push((path@, size)).map_values(|x: (Seq<char>, u64)| x.0) =~= h.map_values(
        |x: (Seq<char>, u64)| x.0,
    ).push(path@));
}

/// The folders of an application below one root.
fn leftovers_in(identity: &AppIdentity, root: &RootListing) -> (g: LeftoverGroup)
    ensures
        g.label_idx == root.label_idx,
        holds(g, hits(*identity, root.path@, root.children@)),
{
    let mut g = LeftoverGroup { label_idx: root.label_idx, paths: Vec::new(), size: 0 };
    let ghost mut h: Seq<(Seq<char>, u64)> = Seq::empty();
    let mut c: usize = 0;
    proof {
        assert(scan::strings(g.paths@) =~= h.map_values(|x: (Seq<char>, u64)| x.0));
        assert(root.children@.take(0) =~= Seq::empty());
    }
    while c < root.children.len()
        invariant
            c <= root.children.len(),
            g.label_idx == root.label_idx,
            h == hits(*identity, root.path@, root.children@.take(c as int)),
            holds(g, h),
        decreases root.children.len() - c,
    {
        let child = &root.children[c];
        let ghost done = h;
        proof {
            assert(root.children@.take(c + 1).drop_last() =~= root.children@.take(c as int));
            assert(root.children@.take(c + 1).last() == *child);
        }
        if is_owned(identity, child.name.as_str()) {
            let path = child_path(root.path.as_str(), child.name.as_str());
            let ghost one = (path@, child.size);
            hold(&mut g, path, child.size, Ghost(h));
            proof {
                h = h.push(one);
                assert(h =~= done + seq![one]);
            }
        } else if is_same_folder(identity.publisher.as_str(), child.name.as_str()) {
            let folder = child_path(root.path.as_str(), child.name.as_str());
            let mut k: usize = 0;
            assert(done + nested_hits(*identity, folder@, child.nested@.take(0)) =~= done);
            while k < child.nested.len()
                invariant
                    k <= child.nested.len(),
                    g.label_idx == root.label_idx,
                    h == done + nested_hits(*identity, folder@, child.nested@.take(k as int)),
                    holds(g, h),
                decreases child.nested.len() - k,
            {
                let ghost head = child.nested@.take(k as int);
                assert(child.nested@.take(k + 1).drop_last() =~= head);
                assert(child.nested@.take(k + 1).last() == child.nested@[k as int]);
                if is_owned(identity, child.nested[k].0.as_str()) {
                    let path = child_path(folder.as_str(), child.nested[k].0.as_str());
                    let ghost one = (path@, child.nested@[k as int].1);
                    hold(&mut g, path, child.nested[k].1, Ghost(h));
                    proof {
                        h = h.push(one);
                        assert(h =~= done + nested_hits(*identity, folder@, head).push(one));
                    }
                }
                k += 1;
            }
            assert(child.nested@.take(k as int) =~= child.nested@);
        } else {
            assert(done + Seq::<(Seq<char>, u64)>::empty() =~= done);
        }
        c += 1;
    }
    assert(root.children@.take(c as int) =~= root.children@);
    g
}

/// The roots in which the application left something.
pub open spec fn littered(i: AppIdentity, roots: Seq<RootListing>) -> Seq<RootListing> {
    roots.filter(|r: RootListing| hits(i, r.path@, r.children@).len() > 0)
}

/// What an application left behind: one group for each root in which it left
/// something.
pub fn find_leftovers(identity: &AppIdentity, roots: &[RootListing]) -> (r: Vec<LeftoverGroup>)
    ensures
        r@.len() == littered(*identity, roots@).len(),
        forall|k: int|
            0 <= k < r@.len() ==> {
                let root = littered(*identity, roots@)[k];
                &&& (#[trigger] r@[k]).label_idx == root.label_idx
                &&& holds(r@[k], hits(*identity, root.path@, root.children@))
            },
{
    let mut out: Vec<LeftoverGroup> = Vec::new();
    let ghost p = |r: RootListing| hits(*identity, r.path@, r.children@).len() > 0;
    let mut i: usize = 0;
    proof {
        seqs::filter_nothing::<RootListing>(p);
        assert(roots@.take(0) =~= Seq::empty());
    }
    while i < roots.len()
        invariant
            i <= roots.len(),
            p == (|r: RootListing| hits(*identity, r.path@, r.children@).len() > 0),
            out@.len() == roots@.take(i as int).filter(p).len(),
            forall|k: int|
                0 <= k < out@.len() ==> {
                    let root = roots@.take(i as int).filter(p)[k];
                    &&& (#[trigger] out@[k]).label_idx == root.label_idx
                    &&& holds(out@[k], hits(*identity, root.path@, root.children@))
                },
        decreases roots.len() - i,
    {
        let g = leftovers_in(identity, &roots[i]);
        proof {
            seqs::filter_step(roots@, i as int, p);
            let h = hits(*identity, roots@[i as int].path@, roots@[i as int].children@);
            assert(scan::strings(g.paths@).len() == h.len());
        }
        if g.paths.len() > 0 {
            out.push(g);
        }
        i += 1;
    }
    assert(roots@.take(i as int) =~= roots@);
    out
}

// ---------------------------------------------------------------------------
// Laws
// ---------------------------------------------------------------------------

/// The path of a folder below another is the other's path without its trailing
/// backslashes, one backslash, and the name.
pub proof fn a_child_stands_behind_one_backslash(root: &str, child: &str, r: String) -> (n: int)
    requires
        call_ensures(child_path, (root, child), r),
    ensures
        0 <= n <= root@.len(),
        r@ == root@.take(n).push('\\') + child@,
        forall|i: int| n <= i < root@.len() ==> #[trigger] root@[i] == '\\',
        n > 0 ==> root@[n - 1] != '\\',
{
    tail_holds(root@);
    let n = locate::no_tail_slash(root@).len() as int;
    if n > 0 {
        assert(root@.take(n)[n - 1] == root@[n - 1]);
    }
    n
}

proof fn tail_holds(s: Seq<char>)
    ensures
        locate::no_tail_slash(s).len() <= s.len(),
        s.take(locate::no_tail_slash(s).len() as int) == locate::no_tail_slash(s),
        forall|i: int| locate::no_tail_slash(s).len() <= i < s.len() ==> #[trigger] s[i] == '\\',
        locate::no_tail_slash(s).len() > 0 ==> locate::no_tail_slash(s).last() != '\\',
    decreases s.len(),
{
    if s.len() > 0 && s.last() == '\\' {
        let less = s.drop_last();
        tail_holds(less);
        let n = locate::no_tail_slash(s).len() as int;
        assert(s.take(n) =~= less.take(n));
        assert forall|i: int| n <= i < s.len() implies #[trigger] s[i] == '\\' by {
            if i < less.len() {
                assert(less[i] == s[i]);
            }
        }
    } else {
        assert(s.take(s.len() as int) =~= s);
    }
}

/// Both names are equal up to ASCII case, and neither is empty.
pub open spec fn alike(a: Seq<char>, b: Seq<char>) -> bool {
    a.len() > 0 && a.len() == b.len() && forall|i: int|
        0 <= i < a.len() ==> text::lower_char(#[trigger] a[i]) == text::lower_char(b[i])
}

proof fn same_is_alike(a: Seq<char>, b: Seq<char>)
    ensures
        same_folder(a, b) <==> alike(a, b),
{
    let la = text::lower(a);
    let lb = text::lower(b);
    if same_folder(a, b) {
        assert(la.len() == a.len() && lb.len() == b.len());
        assert forall|i: int| 0 <= i < a.len() implies text::lower_char(#[trigger] a[i])
            == text::lower_char(b[i]) by {
            assert(la[i] == lb[i]);
        }
    }
    if alike(a, b) {
        assert(la =~= lb);
    }
}

/// A folder of an application: a folder of the root that is named like the
/// application, the folder it is installed in or its package family; or one so
/// named in a folder of the root that is named like the publisher and not like
/// the application.
pub open spec fn is_left_by(
    i: AppIdentity,
    root: RootListing,
    path: Seq<char>,
    size: u64,
) -> bool {
    ||| exists|c: int|
        {
            let child = #[trigger] root.children@[c];
            &&& 0 <= c < root.children@.len()
            &&& alike(i.display_name@, child.name@) || alike(i.install_folder@, child.name@)
                || alike(i.family_name@, child.name@)
            &&& path == below(root.path@, child.name@)
            &&& size == child.size
        }
    ||| exists|c: int, k: int|
        {
            let child = root.children@[c];
            let inner = #[trigger] root.children@[c].nested@[k];
            &&& 0 <= c < root.children@.len()
            &&& 0 <= k < child.nested@.len()
            &&& !alike(i.display_name@, child.name@)
            &&& !alike(i.install_folder@, child.name@)
            &&& !alike(i.family_name@, child.name@)
            &&& alike(i.publisher@, child.name@)
            &&& alike(i.display_name@, inner.0@) || alike(i.install_folder@, inner.0@) || alike(
                i.family_name@,
                inner.0@,
            )
            &&& path == below(below(root.path@, child.name@), inner.0@)
            &&& size == inner.1
        }
}

proof fn owns_by_name(i: AppIdentity, name: Seq<char>)
    ensures
        owns(i, name) <==> alike(i.display_name@, name) || alike(i.install_folder@, name) || alike(
            i.family_name@,
            name,
        ),
{
    same_is_alike(i.display_name@, name);
    same_is_alike(i.install_folder@, name);
    same_is_alike(i.family_name@, name);
}

proof fn nested_members(
    i: AppIdentity,
    folder: Seq<char>,
    nested: Seq<(String, u64)>,
    e: (Seq<char>, u64),
)
    ensures
        nested_hits(i, folder, nested).contains(e) <==> exists|k: int|
            0 <= k < nested.len() && owns(i, (#[trigger] nested[k]).0@) && e == (
                below(folder, nested[k].0@),
                nested[k].1,
            ),
    decreases nested.len(),
{
    if nested.len() > 0 {
        let less = nested.drop_last();
        nested_members(i, folder, less, e);
        let rest = nested_hits(i, folder, less);
        let whole = nested_hits(i, folder, nested);
        let n = nested.len() - 1;
        assert(nested[n] == nested.last());
        if rest.contains(e) {
            let q = rest.index_of(e);
            assert(whole[q] == e);
            let k = choose|k: int|
                0 <= k < less.len() && owns(i, (#[trigger] less[k]).0@) && e == (
                    below(folder, less[k].0@),
                    less[k].1,
                );
            assert(nested[k] == less[k]);
        }
        if owns(i, nested.last().0@) && e == (below(folder, nested.last().0@), nested.last().1) {
            assert(whole[rest.len() as int] == e);
        }
        if whole.contains(e) {
            let q = whole.index_of(e);
            assert(whole[q] == e);
            if q < rest.len() {
                assert(rest[q] == e);
                assert(rest.contains(e));
            } else {
                assert(owns(i, nested[n].0@));
            }
        }
        if exists|k: int|
            0 <= k < nested.len() && owns(i, (#[trigger] nested[k]).0@) && e == (
                below(folder, nested[k].0@),
                nested[k].1,
            ) {
            let k = choose|k: int|
                0 <= k < nested.len() && owns(i, (#[trigger] nested[k]).0@) && e == (
                    below(folder, nested[k].0@),
                    nested[k].1,
                );
            if k < n {
                assert(less[k] == nested[k]);
                assert(rest.contains(e));
            }
        }
    }
}

proof fn hit_members(i: AppIdentity, root: Seq<char>, children: Seq<RootChild>, e: (Seq<char>, u64))
    ensures
        hits(i, root, children).contains(e) <==> exists|c: int|
            0 <= c < children.len() && child_hits(i, root, #[trigger] children[c]).contains(e),
    decreases children.len(),
{
    if children.len() > 0 {
        let less = children.drop_last();
        hit_members(i, root, less, e);
        let a = hits(i, root, less);
        let b = child_hits(i, root, children.last());
        let n = children.len() - 1;
        assert(children[n] == children.last());
        if (a + b).contains(e) {
            let q = (a + b).index_of(e);
            assert((a + b)[q] == e);
            if q < a.len() {
                assert(a[q] == e);
                assert(a.contains(e));
                let c = choose|c: int|
                    0 <= c < less.len() && child_hits(i, root, #[trigger] less[c]).contains(e);
                assert(children[c] == less[c]);
            } else {
                assert(b[q - a.len()] == e);
                assert(child_hits(i, root, children[n]).contains(e));
            }
        }
        if exists|c: int|
            0 <= c < children.len() && child_hits(i, root, #[trigger] children[c]).contains(e) {
            let c = choose|c: int|
                0 <= c < children.len() && child_hits(i, root, #[trigger] children[c]).contains(e);
            if c < n {
                assert(less[c] == children[c]);
                assert(a.contains(e));
                let q = a.index_of(e);
                assert((a + b)[q] == e);
            } else {
                assert(b.contains(e));
                let q = b.index_of(e);
                assert((a + b)[a.len() + q] == e);
            }
        }
    }
}

proof fn hits_are_left(i: AppIdentity, root: RootListing, e: (Seq<char>, u64))
    ensures
        hits(i, root.path@, root.children@).contains(e) <==> is_left_by(i, root, e.0, e.1),
{
    let p = root.path@;
    let cs = root.children@;
    hit_members(i, p, cs, e);
    if hits(i, p, cs).contains(e) {
        let c = choose|c: int| 0 <= c < cs.len() && child_hits(i, p, #[trigger] cs[c]).contains(e);
        let child = cs[c];
        owns_by_name(i, child.name@);
        same_is_alike(i.publisher@, child.name@);
        if owns(i, child.name@) {
            let one = seq![(below(p, child.name@), child.size)];
            let q = one.index_of(e);
            assert(one[q] == e);
            assert(root.children@[c] == child);
        } else {
            nested_members(i, below(p, child.name@), child.nested@, e);
            let k = choose|k: int|
                0 <= k < child.nested@.len() && owns(i, (#[trigger] child.nested@[k]).0@) && e == (
                    below(below(p, child.name@), child.nested@[k].0@),
                    child.nested@[k].1,
                );
            owns_by_name(i, child.nested@[k].0@);
            assert(root.children@[c].nested@[k] == child.nested@[k]);
        }
    }
    if is_left_by(i, root, e.0, e.1) {
        if exists|c: int|
            {
                let child = #[trigger] root.children@[c];
                &&& 0 <= c < root.children@.len()
                &&& alike(i.display_name@, child.name@) || alike(i.install_folder@, child.name@)
                    || alike(i.family_name@, child.name@)
                &&& e.0 == below(root.path@, child.name@)
                &&& e.1 == child.size
            } {
            let c = choose|c: int|
                {
                    let child = #[trigger] root.children@[c];
                    &&& 0 <= c < root.children@.len()
                    &&& alike(i.display_name@, child.name@) || alike(i.install_folder@, child.name@)
                        || alike(i.family_name@, child.name@)
                    &&& e.0 == below(root.path@, child.name@)
                    &&& e.1 == child.size
                };
            owns_by_name(i, cs[c].name@);
            let one = child_hits(i, p, cs[c]);
            assert(one[0] == e);
            assert(one.contains(e));
        } else {
            let (c, k) = choose|c: int, k: int|
                {
                    let child = root.children@[c];
                    let inner = #[trigger] root.children@[c].nested@[k];
                    &&& 0 <= c < root.children@.len()
                    &&& 0 <= k < child.nested@.len()
                    &&& !alike(i.display_name@, child.name@)
                    &&& !alike(i.install_folder@, child.name@)
                    &&& !alike(i.family_name@, child.name@)
                    &&& alike(i.publisher@, child.name@)
                    &&& alike(i.display_name@, inner.0@) || alike(i.install_folder@, inner.0@)
                        || alike(i.family_name@, inner.0@)
                    &&& e.0 == below(below(root.path@, child.name@), inner.0@)
                    &&& e.1 == inner.1
                };
            let child = cs[c];
            owns_by_name(i, child.name@);
            same_is_alike(i.publisher@, child.name@);
            owns_by_name(i, child.nested@[k].0@);
            nested_members(i, below(p, child.name@), child.nested@, e);
            assert(child_hits(i, p, cs[c]).contains(e));
        }
    }
}

/// The group names a path.
pub open spec fn has_path(g: LeftoverGroup, p: Seq<char>) -> bool {
    exists|q: int| 0 <= q < g.paths@.len() && (#[trigger] g.paths@[q])@ == p
}

/// An application left one group for each root in which a folder is its, in root
/// order, and the group names all such folders and no others. `at` gives the
/// places of these roots.
pub proof fn leftovers_are_the_folders_of_the_application(
    identity: &AppIdentity,
    roots: &[RootListing],
    r: Vec<LeftoverGroup>,
) -> (at: Seq<int>)
    requires
        call_ensures(find_leftovers, (identity, roots), r),
    ensures
        at.len() == r@.len(),
        forall|a: int, b: int| 0 <= a < b < at.len() ==> #[trigger] at[a] < #[trigger] at[b],
        forall|k: int|
            0 <= k < at.len() ==> {
                &&& 0 <= #[trigger] at[k] < roots@.len()
                &&& r@[k].label_idx == roots@[at[k]].label_idx
                &&& forall|p: Seq<char>| #[trigger]
                    has_path(r@[k], p) <==> exists|size: u64| #[trigger]
                        is_left_by(*identity, roots@[at[k]], p, size)
            },
        forall|i: int|
            0 <= i < roots@.len() ==> (at.contains(i) <==> exists|p: Seq<char>, size: u64|
                is_left_by(*identity, #[trigger] roots@[i], p, size)),
{
    let test = |x: RootListing| hits(*identity, x.path@, x.children@).len() > 0;
    let at = seqs::filter_places(roots@, test);
    let found = roots@.filter(test);
    assert(littered(*identity, roots@) =~= found);
    assert forall|k: int| 0 <= k < at.len() implies {
        &&& 0 <= #[trigger] at[k] < roots@.len()
        &&& r@[k].label_idx == roots@[at[k]].label_idx
        &&& forall|p: Seq<char>| #[trigger]
            has_path(r@[k], p) <==> exists|size: u64| #[trigger]
                is_left_by(*identity, roots@[at[k]], p, size)
    } by {
        let root = roots@[at[k]];
        assert(found[k] == root);
        let h = hits(*identity, root.path@, root.children@);
        let names = h.map_values(|x: (Seq<char>, u64)| x.0);
        assert(holds(r@[k], h));
        assert(scan::strings(r@[k].paths@) == names);
        assert(scan::strings(r@[k].paths@).len() == r@[k].paths@.len());
        assert(names.len() == h.len());
        assert forall|p: Seq<char>| #[trigger]
            has_path(r@[k], p) <==> exists|size: u64| #[trigger]
                is_left_by(*identity, root, p, size) by {
            if has_path(r@[k], p) {
                let q = choose|q: int|
                    0 <= q < r@[k].paths@.len() && (#[trigger] r@[k].paths@[q])@ == p;
                assert(scan::strings(r@[k].paths@)[q] == p);
                assert(names[q] == h[q].0);
                assert(h.contains(h[q]));
                hits_are_left(*identity, root, h[q]);
                assert(is_left_by(*identity, root, p, h[q].1));
            }
            if exists|size: u64| #[trigger] is_left_by(*identity, root, p, size) {
                let size = choose|size: u64| #[trigger] is_left_by(*identity, root, p, size);
                hits_are_left(*identity, root, (p, size));
                let q = h.index_of((p, size));
                assert(h[q] == (p, size));
                assert(names[q] == p);
                assert(scan::strings(r@[k].paths@)[q] == r@[k].paths@[q]@);
                assert(r@[k].paths@[q]@ == p);
            }
        }
    }
    assert forall|i: int| 0 <= i < roots@.len() implies (at.contains(i) <==> exists|
        p: Seq<char>,
        size: u64,
    | is_left_by(*identity, #[trigger] roots@[i], p, size)) by {
        let root = roots@[i];
        let h = hits(*identity, root.path@, root.children@);
        assert(at.contains(i) <==> test(roots@[i]));
        if h.len() > 0 {
            assert(h.contains(h[0]));
            hits_are_left(*identity, root, h[0]);
            assert(is_left_by(*identity, root, h[0].0, h[0].1));
        }
        if exists|p: Seq<char>, size: u64| is_left_by(*identity, root, p, size) {
            let (p, size) = choose|p: Seq<char>, size: u64| is_left_by(*identity, root, p, size);
            hits_are_left(*identity, root, (p, size));
            let q = h.index_of((p, size));
            assert(h[q] == (p, size));
        }
    }
    at
}

/// One folder more that is named like the application raises the size of its
/// group by its own, up to the largest number.
pub proof fn every_leftover_counts(
    identity: &AppIdentity,
    less: &[RootListing],
    more: &[RootListing],
    a: Vec<LeftoverGroup>,
    b: Vec<LeftoverGroup>,
)
    requires
        less@.len() == 1 && more@.len() == 1,
        more@[0].path@ == less@[0].path@,
        more@[0].children@.len() > 0,
        less@[0].children@ == more@[0].children@.drop_last(),
        alike(identity.display_name@, more@[0].children@.last().name@),
        a@.len() == 1,
        call_ensures(find_leftovers, (identity, less), a),
        call_ensures(find_leftovers, (identity, more), b),
    ensures
        b@.len() == 1,
        b@[0].paths@.len() == a@[0].paths@.len() + 1,
        a@[0].size + more@[0].children@.last().size <= u64::MAX ==> b@[0].size == a@[0].size
            + more@[0].children@.last().size,
        a@[0].size + more@[0].children@.last().size > u64::MAX ==> b@[0].size == u64::MAX,
{
    let test = |x: RootListing| hits(*identity, x.path@, x.children@).len() > 0;
    let pa = leftovers_are_the_folders_of_the_application(identity, less, a);
    let fa = less@.filter(test);
    let fb = more@.filter(test);
    assert(littered(*identity, less@) =~= fa);
    assert(littered(*identity, more@) =~= fb);
    let ra = less@[0];
    let rb = more@[0];
    let c = rb.children@.last();
    let ha = hits(*identity, ra.path@, ra.children@);
    let hb = hits(*identity, rb.path@, rb.children@);
    owns_by_name(*identity, c.name@);
    let one = (below(rb.path@, c.name@), c.size);
    assert(child_hits(*identity, rb.path@, c) == seq![one]);
    assert(hb =~= ha.push(one));
    assert(hb.drop_last() =~= ha);
    hit_bytes_is_nat(ha);
    let xa = seqs::filter_places(less@, test);
    let xb = seqs::filter_places(more@, test);
    assert(test(more@[0]));
    assert(xb.contains(0));
    let q = xb.index_of(0);
    assert(xb[q] == 0);
    if xb.len() > 1 {
        assert(xb[0] < xb[1]);
        assert(0 <= xb[1] < 1);
        assert(0 <= xb[0] < 1);
    }
    assert(xb.len() == 1);
    assert(fb[0] == rb) by {
        assert(fb[0] == more@[xb[0]]);
    }
    assert(fa[0] == ra) by {
        assert(0 <= xa[0] < 1);
        assert(fa[0] == less@[xa[0]]);
    }
    assert(holds(a@[0], ha));
    assert(holds(b@[0], hb));
    assert(scan::strings(a@[0].paths@).len() == ha.len());
    assert(scan::strings(b@[0].paths@).len() == hb.len());
}

/// A child is looked into where some application has a publisher of its name; the
/// requests name all such children, root by root, and no others.
pub proof fn publishers_are_looked_into(
    roots: &[RootListing],
    ids: &[AppIdentity],
    r: Vec<(usize, String)>,
    at: int,
    name: Seq<char>,
)
    requires
        call_ensures(publisher_children_to_expand, (roots, ids), r),
    ensures
        (exists|k: int| 0 <= k < r@.len() && (#[trigger] r@[k]).0 == at && r@[k].1@ == name) <==> {
            &&& 0 <= at < roots@.len()
            &&& exists|c: int|
                0 <= c < roots@[at].children@.len() && (#[trigger] roots@[at].children@[c]).name@
                    == name
            &&& exists|k: int| 0 <= k < ids@.len() && alike((#[trigger] ids@[k]).publisher@, name)
        },
{
    let v = says_requests(r@);
    publisher_members(roots@, ids@, at, name);
    is_publisher_by_name(ids@, name);
    if exists|k: int| 0 <= k < r@.len() && (#[trigger] r@[k]).0 == at && r@[k].1@ == name {
        let k = choose|k: int| 0 <= k < r@.len() && (#[trigger] r@[k]).0 == at && r@[k].1@ == name;
        assert(v[k] == (at, name));
    }
    if v.contains((at, name)) {
        let k = v.index_of((at, name));
        assert(v[k] == (r@[k].0 as int, r@[k].1@));
        assert(r@[k].0 == at && r@[k].1@ == name);
    }
}

proof fn is_publisher_by_name(ids: Seq<AppIdentity>, name: Seq<char>)
    ensures
        is_publisher(ids, name) <==> exists|k: int|
            0 <= k < ids.len() && alike((#[trigger] ids[k]).publisher@, name),
{
    if is_publisher(ids, name) {
        let k = choose|k: int|
            0 <= k < ids.len() && same_folder((#[trigger] ids[k]).publisher@, name);
        same_is_alike(ids[k].publisher@, name);
    }
    if exists|k: int| 0 <= k < ids.len() && alike((#[trigger] ids[k]).publisher@, name) {
        let k = choose|k: int| 0 <= k < ids.len() && alike((#[trigger] ids[k]).publisher@, name);
        same_is_alike(ids[k].publisher@, name);
    }
}

proof fn publisher_in_members(
    r: int,
    children: Seq<RootChild>,
    ids: Seq<AppIdentity>,
    at: int,
    name: Seq<char>,
)
    ensures
        publishers_in(r, children, ids).contains((at, name)) <==> at == r && is_publisher(
            ids,
            name,
        ) && exists|c: int| 0 <= c < children.len() && (#[trigger] children[c]).name@ == name,
    decreases children.len(),
{
    if children.len() > 0 {
        let less = children.drop_last();
        publisher_in_members(r, less, ids, at, name);
        let rest = publishers_in(r, less, ids);
        let whole = publishers_in(r, children, ids);
        let n = children.len() - 1;
        let e = (at, name);
        assert(children[n] == children.last());
        if rest.contains(e) {
            let q = rest.index_of(e);
            assert(whole[q] == e);
            let c = choose|c: int| 0 <= c < less.len() && (#[trigger] less[c]).name@ == name;
            assert(children[c] == less[c]);
        }
        if whole.contains(e) {
            let q = whole.index_of(e);
            assert(whole[q] == e);
            if q < rest.len() {
                assert(rest[q] == e);
                assert(rest.contains(e));
            } else {
                assert(children[n].name@ == name);
            }
        }
        if at == r && is_publisher(ids, name) && exists|c: int|
            0 <= c < children.len() && (#[trigger] children[c]).name@ == name {
            let c = choose|c: int|
                0 <= c < children.len() && (#[trigger] children[c]).name@ == name;
            if c < n {
                assert(less[c] == children[c]);
                assert(rest.contains(e));
            } else {
                assert(whole[rest.len() as int] == e);
            }
        }
    }
}

proof fn publisher_members(
    roots: Seq<RootListing>,
    ids: Seq<AppIdentity>,
    at: int,
    name: Seq<char>,
)
    ensures
        publishers(roots, ids).contains((at, name)) <==> 0 <= at < roots.len() && is_publisher(
            ids,
            name,
        ) && exists|c: int|
            0 <= c < roots[at].children@.len() && (#[trigger] roots[at].children@[c]).name@ == name,
    decreases roots.len(),
{
    if roots.len() > 0 {
        let less = roots.drop_last();
        let n = roots.len() - 1;
        publisher_members(less, ids, at, name);
        publisher_in_members(n, roots.last().children@, ids, at, name);
        let a = publishers(less, ids);
        let b = publishers_in(n, roots.last().children@, ids);
        let e = (at, name);
        assert(roots[n] == roots.last());
        if 0 <= at < n {
            assert(less[at] == roots[at]);
        }
        if (a + b).contains(e) {
            let q = (a + b).index_of(e);
            assert((a + b)[q] == e);
            if q < a.len() {
                assert(a[q] == e);
                assert(a.contains(e));
            } else {
                assert(b[q - a.len()] == e);
                assert(b.contains(e));
            }
        }
        if a.contains(e) {
            let q = a.index_of(e);
            assert((a + b)[q] == e);
        }
        if b.contains(e) {
            let q = b.index_of(e);
            assert((a + b)[a.len() + q] == e);
        }
    }
}

/// A request to look into a child is listed where its root has a child of that
/// very name, under the child's path; any other request is not.
pub proof fn a_request_lists_its_child(
    roots: &[RootListing],
    requests: &[(usize, String)],
    r: Vec<Option<String>>,
    i: int,
)
    requires
        call_ensures(folders_to_list, (roots, requests), r),
        0 <= i < requests@.len(),
    ensures
        r@.len() == requests@.len(),
        r@[i] is Some <==> requests@[i].0 < roots@.len() && exists|c: int|
            0 <= c < roots@[requests@[i].0 as int].children@.len() && (
            #[trigger] roots@[requests@[i].0 as int].children@[c]).name@ == requests@[i].1@,
        r@[i] is Some ==> r@[i]->0@ == below(roots@[requests@[i].0 as int].path@, requests@[i].1@),
{
    assert(scan::text_of(r@[i]) == folder_for(roots@, requests@[i]));
    if requests@[i].0 < roots@.len() {
        let cs = roots@[requests@[i].0 as int].children@;
        first_child_exists(cs, requests@[i].1@);
    }
}

proof fn first_child_exists(children: Seq<RootChild>, name: Seq<char>)
    ensures
        first_child(children, name) is Some <==> exists|c: int|
            0 <= c < children.len() && (#[trigger] children[c]).name@ == name,
    decreases children.len(),
{
    if children.len() > 0 {
        let less = children.drop_last();
        first_child_exists(less, name);
        first_child_bound(children, name);
        assert(children[children.len() - 1] == children.last());
        if exists|c: int| 0 <= c < children.len() && (#[trigger] children[c]).name@ == name {
            let c = choose|c: int|
                0 <= c < children.len() && (#[trigger] children[c]).name@ == name;
            if c < less.len() {
                assert(less[c] == children[c]);
            }
        }
    }
}

/// A child holds what the last listing that names it found; one that no listing
/// names keeps what it held.
pub proof fn the_last_listing_fills_a_child(
    roots: Seq<RootListing>,
    requests: Seq<(usize, String)>,
    found: Seq<Option<Vec<(String, u64)>>>,
    n: nat,
    r: int,
    c: int,
)
    ensures
        (forall|k: int|
            0 <= k < n ==> !(asks_for(roots, #[trigger] requests[k], r, c) && found[k] is Some))
            ==> nested_after(roots, requests, found, n, r, c) == roots[r].children@[c].nested@,
        forall|k: int|
            #![trigger requests[k]]
            0 <= k < n && asks_for(roots, requests[k], r, c) && found[k] is Some && (forall|j: int|
                k < j < n ==> !(asks_for(roots, #[trigger] requests[j], r, c) && found[j] is Some))
                ==> nested_after(roots, requests, found, n, r, c) == found[k]->0@,
    decreases n,
{
    if n > 0 {
        let m = (n - 1) as nat;
        the_last_listing_fills_a_child(roots, requests, found, m, r, c);
        let last = requests[n - 1];
        assert forall|k: int|
            #![trigger requests[k]]
            0 <= k < n && asks_for(roots, requests[k], r, c) && found[k] is Some && (forall|j: int|
                k < j < n ==> !(asks_for(roots, #[trigger] requests[j], r, c) && found[j]
                    is Some)) implies nested_after(roots, requests, found, n, r, c)
            == found[k]->0@ by {
            if k < n - 1 {
                assert(!(asks_for(roots, requests[n - 1], r, c) && found[n - 1] is Some));
                assert(forall|j: int|
                    k < j < m ==> !(asks_for(roots, #[trigger] requests[j], r, c) && found[j]
                        is Some));
            }
        }
    }
}

/// A request names the first child of its root that bears its name.
pub proof fn a_request_names_the_first_child(
    roots: Seq<RootListing>,
    request: (usize, String),
    r: int,
    c: int,
)
    requires
        asks_for(roots, request, r, c),
    ensures
        request.0 == r,
        0 <= r < roots.len(),
        0 <= c < roots[r].children@.len(),
        roots[r].children@[c].name@ == request.1@,
        forall|j: int| 0 <= j < c ==> (#[trigger] roots[r].children@[j]).name@ != request.1@,
{
    first_child_is_first(roots[r].children@, request.1@);
}

/// Where the first child of a name stands.
proof fn first_child_is_first(children: Seq<RootChild>, name: Seq<char>)
    ensures
        first_child(children, name) matches Some(c) ==> 0 <= c < children.len()
            && children[c].name@ == name && forall|j: int|
            0 <= j < c ==> (#[trigger] children[j]).name@ != name,
        first_child(children, name) is None ==> forall|j: int|
            0 <= j < children.len() ==> (#[trigger] children[j]).name@ != name,
    decreases children.len(),
{
    if children.len() > 0 {
        let less = children.drop_last();
        first_child_is_first(less, name);
        if let Some(c) = first_child(less, name) {
            assert(less[c] == children[c]);
            assert forall|j: int| 0 <= j < c implies (#[trigger] children[j]).name@ != name by {
                assert(less[j] == children[j]);
            }
        } else {
            assert forall|j: int| 0 <= j < children.len() - 1 implies (
            #[trigger] children[j]).name@ != name by {
                assert(less[j] == children[j]);
            }
        }
    }
}

/// Filling in what is nested changes nothing else: the roots, their paths, and
/// the names and sizes of their children stay.
pub proof fn filling_changes_what_is_nested_alone(a: Seq<RootListing>, b: Seq<RootListing>)
    requires
        same_but_nested(b, a),
    ensures
        b.len() == a.len(),
        forall|r: int|
            #![trigger b[r]]
            0 <= r < a.len() ==> b[r].path@ == a[r].path@ && b[r].label_idx == a[r].label_idx
                && b[r].children@.len() == a[r].children@.len(),
        forall|r: int, c: int|
            0 <= r < a.len() && 0 <= c < a[r].children@.len() ==> (
            #[trigger] b[r].children@[c]).name@ == a[r].children@[c].name@
                && b[r].children@[c].size == a[r].children@[c].size,
{
}

} // verus!
