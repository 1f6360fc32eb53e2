//! Finding a node by its display path.
use crate::names;
use crate::text;
use crate::tree::{RootRef, Tree};
use vstd::prelude::*;

verus! {

/// Forward slashes become backslashes.
pub open spec fn backslashed(s: Seq<char>) -> Seq<char> {
    s.map_values(|c: char| if c == '/' { '\\' } else { c })
}

/// The text without trailing backslashes.
pub open spec fn no_tail_slash(s: Seq<char>) -> Seq<char>
    decreases s.len(),
{
    if s.len() > 0 && s.last() == '\\' {
        no_tail_slash(s.drop_last())
    } else {
        s
    }
}

/// The prefix `\\?\` of a verbatim path.
pub open spec fn verbatim() -> Seq<char> {
    seq!['\\', '\\', '?', '\\']
}

/// The text without the verbatim prefix, where it has one.
pub open spec fn no_verbatim(s: Seq<char>) -> Seq<char> {
    if verbatim().is_prefix_of(s) {
        s.skip(4)
    } else {
        s
    }
}

/// Backslashes and ASCII lower case.
pub open spec fn folded(s: Seq<char>) -> Seq<char> {
    text::lower(backslashed(s))
}

/// A path in the form in which paths are compared: backslashes, ASCII lower
/// case, no verbatim prefix, no trailing separator.
pub open spec fn normal(s: Seq<char>) -> Seq<char> {
    no_tail_slash(no_verbatim(folded(s)))
}

/// Brings a path into the form in which paths are compared.
pub fn normalize(path: &str) -> (r: String)
    ensures
        r@ == normal(path@),
{
    let cs = text::chars_of(path);
    let mut out: Vec<char> = Vec::new();
    let mut i: usize = 0;
    while i < cs.len()
        invariant
            i <= cs.len(),
            out@ == folded(cs@.take(i as int)),
        decreases cs.len() - i,
    {
        let c: char = if cs[i] == '/' {
            '\\'
        } else {
            cs[i]
        };
        out.push(text::to_lower_char(c));
        assert(out@ =~= folded(cs@.take(i + 1)));
        i += 1;
    }
    assert(cs@.take(i as int) =~= cs@);
    let ghost whole = out@;
    let mut from: usize = 0;
    if out.len() >= 4 && out[0] == '\\' && out[1] == '\\' && out[2] == '?' && out[3] == '\\' {
        from = 4;
        assert(whole.take(4) =~= verbatim());
    } else {
        assert(!verbatim().is_prefix_of(whole)) by {
            if verbatim().is_prefix_of(whole) {
                assert(whole.take(4) == verbatim());
                assert(whole[0] == verbatim()[0] && whole[1] == verbatim()[1] && whole[2]
                    == verbatim()[2] && whole[3] == verbatim()[3]);
            }
        }
        assert(whole.skip(0) =~= whole);
    }
    assert(no_verbatim(whole) == whole.skip(from as int));
    let mut to: usize = out.len();
    assert(whole.subrange(from as int, to as int) =~= whole.skip(from as int));
    while to > from && out[to - 1] == '\\'
        invariant
            from <= to <= out.len(),
            out@ == whole,
            no_tail_slash(no_verbatim(whole)) == no_tail_slash(
                whole.subrange(from as int, to as int),
            ),
        decreases to - from,
    {
        assert(whole.subrange(from as int, to as int).drop_last() =~= whole.subrange(
            from as int,
            to - 1,
        ));
        to -= 1;
    }
    let kept = text::slice_chars(out.as_slice(), from, to);
    text::string_of(kept.as_slice())
}

impl Tree {
    /// The first node of a list whose name matches.
    pub open spec fn first_named(&self, list: Seq<u32>, seg: Seq<char>) -> Option<u32>
        decreases list.len(),
    {
        if list.len() == 0 {
            None
        } else if names::same_ci(self.units(list[0] as int), seg) {
            Some(list[0])
        } else {
            self.first_named(list.drop_first(), seg)
        }
    }

    /// The node reached from `cur` by names, taking the first match each time.
    pub open spec fn descend(&self, cur: u32, segs: Seq<Seq<char>>) -> Option<u32>
        decreases segs.len(),
    {
        if segs.len() == 0 {
            Some(cur)
        } else {
            match self.first_named(self.kids_of(cur as int), segs[0]) {
                Some(c) => self.descend(c, segs.drop_first()),
                None => None,
            }
        }
    }

    /// The node that one path root gives for a normalized path.
    pub open spec fn below_root(&self, r: RootRef, path: Seq<char>) -> Option<u32> {
        let rn = normal(r.path@);
        let head = rn.push('\\');
        if path == rn {
            Some(r.node)
        } else if head.is_prefix_of(path) {
            self.descend(r.node, text::split(path.skip(head.len() as int), '\\'))
        } else {
            None
        }
    }

    /// The node that the first path root with an answer gives.
    pub open spec fn located_in(&self, roots: Seq<RootRef>, path: Seq<char>) -> Option<u32>
        decreases roots.len(),
    {
        if roots.len() == 0 {
            None
        } else {
            match self.below_root(roots[0], path) {
                Some(id) => Some(id),
                None => self.located_in(roots.drop_first(), path),
            }
        }
    }

    /// The node with a normalized path, if the scanned subtree holds it.
    pub open spec fn located(&self, path: Seq<char>) -> Option<u32> {
        self.located_in(self.roots@, path)
    }
}

/// The first child of `cur` whose name matches.
fn child_named(tree: &Tree, cur: u32, seg: &str) -> (r: Option<u32>)
    requires
        tree.wf(),
    ensures
        r == tree.first_named(tree.kids_of(cur as int), seg@),
{
    let list = tree.children_sorted(cur);
    let mut i: usize = 0;
    assert(list@.skip(0) =~= list@);
    while i < list.len()
        invariant
            tree.wf(),
            i <= list.len(),
            list@ == tree.kids_of(cur as int),
            tree.first_named(list@, seg@) == tree.first_named(list@.skip(i as int), seg@),
        decreases list.len() - i,
    {
        if names::eq_ci(tree.name_u16(list[i]), seg) {
            return Some(list[i]);
        }
        assert(list@.skip(i as int).drop_first() =~= list@.skip(i + 1));
        i += 1;
    }
    None
}

/// The node reached from `cur` by names.
fn descend_by(tree: &Tree, cur: u32, segs: &Vec<Vec<char>>) -> (r: Option<u32>)
    requires
        tree.wf(),
    ensures
        r == tree.descend(cur, text::views(segs@)),
{
    let mut at: u32 = cur;
    let mut i: usize = 0;
    let ghost all = text::views(segs@);
    assert(all.skip(0) =~= all);
    while i < segs.len()
        invariant
            tree.wf(),
            i <= segs.len(),
            all == text::views(segs@),
            tree.descend(cur, all) == tree.descend(at, all.skip(i as int)),
        decreases segs.len() - i,
    {
        let seg = text::string_of(segs[i].as_slice());
        assert(all.skip(i as int)[0] == seg@);
        assert(all.skip(i as int).drop_first() =~= all.skip(i + 1));
        match child_named(tree, at, seg.as_str()) {
            Some(c) => {
                at = c;
            },
            None => {
                return None;
            },
        }
        i += 1;
    }
    Some(at)
}

/// Finds a node by normalized display path.
pub fn find_node_by_path(tree: &Tree, norm_path: &str) -> (r: Option<u32>)
    requires
        tree.wf(),
    ensures
        r == tree.located(norm_path@),
{
    let path = text::chars_of(norm_path);
    let mut k: usize = 0;
    assert(tree.roots@.skip(0) =~= tree.roots@);
    while k < tree.roots.len()
        invariant
            tree.wf(),
            k <= tree.roots.len(),
            path@ == norm_path@,
            tree.located(norm_path@) == tree.located_in(tree.roots@.skip(k as int), norm_path@),
        decreases tree.roots.len() - k,
    {
        let root = &tree.roots[k];
        assert(tree.roots@.skip(k as int)[0] == *root);
        assert(tree.roots@.skip(k as int).drop_first() =~= tree.roots@.skip(k + 1));
        let rn = normalize(root.path.as_str());
        let mut head = text::chars_of(rn.as_str());
        if text::same_chars(path.as_slice(), head.as_slice()) {
            return Some(root.node);
        }
        head.push('\\');
        if text::begins_with(path.as_slice(), head.as_slice()) {
            let rest = text::slice_chars(path.as_slice(), head.len(), path.len());
            assert(rest@ =~= path@.skip(head@.len() as int));
            let segs = text::split_chars(rest.as_slice(), '\\');
            let found = descend_by(tree, root.node, &segs);
            if found.is_some() {
                return found;
            }
        }
        k += 1;
    }
    None
}

impl Tree {
    /// Finds a node by its display path.
    pub fn resolve_display_path(&self, path: &str) -> (r: Option<u32>)
        requires
            self.wf(),
        ensures
            r == self.located(normal(path@)),
    {
        let n = normalize(path);
        find_node_by_path(self, n.as_str())
    }
}

/// Nodes reached by names belong to the tree.
pub proof fn located_is_node(t: Tree, roots: Seq<RootRef>, path: Seq<char>)
    requires
        t.wf(),
        forall|k: int| 0 <= k < roots.len() ==> (#[trigger] roots[k]).node < t.size(),
    ensures
        t.located_in(roots, path) matches Some(id) ==> t.has(id as int),
    decreases roots.len(),
{
    if roots.len() > 0 {
        let rn = normal(roots[0].path@);
        descend_is_node(
            t,
            roots[0].node,
            text::split(path.skip(rn.push('\\').len() as int), '\\'),
        );
        assert forall|k: int| 0 <= k < roots.drop_first().len() implies (
        #[trigger] roots.drop_first()[k]).node < t.size() by {
            assert(roots.drop_first()[k] == roots[k + 1]);
        }
        located_is_node(t, roots.drop_first(), path);
    }
}

proof fn descend_is_node(t: Tree, cur: u32, segs: Seq<Seq<char>>)
    requires
        t.wf(),
        t.has(cur as int),
    ensures
        t.descend(cur, segs) matches Some(id) ==> t.has(id as int),
    decreases segs.len(),
{
    if segs.len() > 0 {
        first_named_is_kid(t, t.kids_of(cur as int), segs[0]);
        if let Some(c) = t.first_named(t.kids_of(cur as int), segs[0]) {
            assert(t.kids_wf(cur as int));
            let j = t.kids_of(cur as int).index_of(c);
            assert(t.kids_of(cur as int)[j] == c);
            descend_is_node(t, c, segs.drop_first());
        }
    }
}

proof fn first_named_is_kid(t: Tree, list: Seq<u32>, seg: Seq<char>)
    ensures
        t.first_named(list, seg) matches Some(c) ==> list.contains(c) && names::same_ci(
            t.units(c as int),
            seg,
        ),
    decreases list.len(),
{
    if list.len() > 0 {
        if names::same_ci(t.units(list[0] as int), seg) {
            assert(list[0] == list[0]);
        } else {
            first_named_is_kid(t, list.drop_first(), seg);
            if let Some(c) = t.first_named(list.drop_first(), seg) {
                let j = list.drop_first().index_of(c);
                assert(list[j + 1] == c);
            }
        }
    }
}

/// A path is compared in lower case with backslashes, without the verbatim mark
/// in front and without separators at the end.
pub proof fn a_normal_path_is_folded(path: &str, r: String) -> (from: int)
    requires
        call_ensures(normalize, (path,), r),
    ensures
        from == 0 || from == 4,
        from + r@.len() <= path@.len(),
        from == 4 <==> path@.len() >= 4 && (path@[0] == '\\' || path@[0] == '/') && (path@[1] == '\\'
            || path@[1] == '/') && path@[2] == '?' && (path@[3] == '\\' || path@[3] == '/'),
        r@.len() > 0 ==> r@.last() != '\\',
        forall|i: int|
            #![trigger r@[i]]
            0 <= i < r@.len() ==> {
                let c = path@[from + i];
                &&& c == '/' ==> r@[i] == '\\'
                &&& 65 <= c as int && c as int <= 90 ==> r@[i] as int == c as int + 32
                &&& c != '/' && ((c as int) < 65 || c as int > 90) ==> r@[i] == c
            },
        forall|i: int|
            #![trigger path@[i]]
            from + r@.len() <= i < path@.len() ==> path@[i] == '\\' || path@[i] == '/',
{
    let whole = folded(path@);
    assert(whole.len() == path@.len());
    assert forall|i: int| 0 <= i < path@.len() implies (whole[i] == '\\' <==> path@[i] == '\\'
        || path@[i] == '/') && (whole[i] == '?' <==> path@[i] == '?') by {}
    let v = verbatim();
    if v.is_prefix_of(whole) {
        assert(whole.take(4) == v);
        assert(whole[0] == v[0] && whole[1] == v[1] && whole[2] == v[2] && whole[3] == v[3]);
    } else if whole.len() >= 4 && whole[0] == '\\' && whole[1] == '\\' && whole[2] == '?' && whole[3]
        == '\\' {
        assert(whole.take(4) =~= v);
        assert(v.is_prefix_of(whole));
    }
    let from: int = if v.is_prefix_of(whole) {
        4
    } else {
        0
    };
    let t = no_verbatim(whole);
    assert(t =~= whole.skip(from));
    tail_goes(t);
    assert forall|i: int| 0 <= i < r@.len() implies r@[i] == whole[from + i] by {
        assert(t.take(r@.len() as int)[i] == t[i]);
    }
    assert forall|i: int|
        #![trigger path@[i]]
        from + r@.len() <= i < path@.len() implies path@[i] == '\\' || path@[i] == '/' by {
        assert(t[i - from] == whole[i]);
    }
    from
}

/// Only backslashes at the end go.
proof fn tail_goes(s: Seq<char>)
    ensures
        no_tail_slash(s).len() <= s.len(),
        no_tail_slash(s) == s.take(no_tail_slash(s).len() as int),
        forall|i: int| no_tail_slash(s).len() <= i < s.len() ==> #[trigger] s[i] == '\\',
        no_tail_slash(s).len() > 0 ==> no_tail_slash(s).last() != '\\',
    decreases s.len(),
{
    if s.len() > 0 && s.last() == '\\' {
        let less = s.drop_last();
        tail_goes(less);
        let n = no_tail_slash(s).len() as int;
        assert(less.take(n) =~= s.take(n));
        assert forall|i: int| n <= i < s.len() implies #[trigger] s[i] == '\\' by {
            if i < s.len() - 1 {
                assert(less[i] == s[i]);
            }
        }
    } else {
        assert(s.take(s.len() as int) =~= s);
    }
}

/// A name finds the first child that bears it: none before it does, and nothing
/// is found where none does.
pub proof fn the_first_child_of_a_name_is_found(t: Tree, list: Seq<u32>, seg: Seq<char>)
    ensures
        t.first_named(list, seg) is None ==> forall|i: int|
            0 <= i < list.len() ==> !names::same_ci(t.units((#[trigger] list[i]) as int), seg),
        t.first_named(list, seg) matches Some(id) ==> exists|i: int|
            0 <= i < list.len() && #[trigger] list[i] == id && names::same_ci(
                t.units(id as int),
                seg,
            ) && forall|j: int|
                0 <= j < i ==> !names::same_ci(t.units((#[trigger] list[j]) as int), seg),
    decreases list.len(),
{
    if list.len() > 0 {
        if names::same_ci(t.units(list[0] as int), seg) {
            assert(list[0] == t.first_named(list, seg)->0);
        } else {
            let rest = list.drop_first();
            the_first_child_of_a_name_is_found(t, rest, seg);
            if let Some(id) = t.first_named(rest, seg) {
                let i = choose|i: int|
                    0 <= i < rest.len() && #[trigger] rest[i] == id && names::same_ci(
                        t.units(id as int),
                        seg,
                    ) && forall|j: int|
                        0 <= j < i ==> !names::same_ci(t.units((#[trigger] rest[j]) as int), seg);
                assert(list[i + 1] == id);
                assert forall|j: int| 0 <= j < i + 1 implies !names::same_ci(
                    t.units((#[trigger] list[j]) as int),
                    seg,
                ) by {
                    if j > 0 {
                        assert(rest[j - 1] == list[j]);
                    }
                }
            } else {
                assert forall|i: int| 0 <= i < list.len() implies !names::same_ci(
                    t.units((#[trigger] list[i]) as int),
                    seg,
                ) by {
                    if i > 0 {
                        assert(rest[i - 1] == list[i]);
                    }
                }
            }
        }
    }
}

} // verus!
