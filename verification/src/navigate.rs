//! Looking up the display path of a node finds the node again.
use crate::locate;
use crate::names;
use crate::paths;
use crate::text;
use crate::tree::{RootRef, Tree};
use vstd::prelude::*;

verus! {

/// A path separator of either family.
pub open spec fn is_separator(c: char) -> bool {
    c == '\\' || c == '/'
}

/// A name that a path can carry: well-formed UTF-16, not empty, free of
/// separators.
pub open spec fn plain_name(u: Seq<u16>) -> bool {
    &&& u.len() > 0
    &&& text::utf16(text::lossy(u)) == u
    &&& forall|i: int| 0 <= i < text::lossy(u).len() ==> !is_separator(#[trigger] text::lossy(u)[i])
}

/// The folded path of a root, ended by one separator where it has none.
pub open spec fn base(p: Seq<char>) -> Seq<char> {
    if p.len() > 0 && is_separator(p.last()) {
        locate::folded(p)
    } else {
        locate::folded(p).push('\\')
    }
}

/// The paths below a root begin, in the form in which paths are compared, with
/// the root's own path in that form and one separator.
///
/// Three kinds of roots do not do so. Of one that ends in two separators,
/// comparing drops both, while both stay before the names below it. Below
/// `\\?` and below `\\?\` the root and its separator read as the verbatim
/// prefix and are dropped whole. Such a root finds nothing below it
/// ([`a_root_that_does_not_lead_finds_nothing`]).
pub open spec fn leads(p: Seq<char>) -> bool {
    locate::no_verbatim(base(p)) == locate::normal(p).push('\\')
}

impl Tree {
    /// No sibling before the node has its name, ASCII case aside.
    pub open spec fn first_of_its_name(&self, id: int) -> bool {
        let list = self.kids_of(self.at(id).parent as int);
        forall|i: int|
            0 <= i < list.index_of(id as u32) ==> !names::same_ci(
                self.units(#[trigger] list[i] as int),
                self.shown(id),
            )
    }

    /// The node is `top`, or every node from it up to `top` has a plain name,
    /// the first of that name in its folder, and no path of its own.
    pub open spec fn named_from(&self, id: int, top: int) -> bool
        decreases id,
    {
        if id == top {
            self.has(id)
        } else {
            &&& self.has(id)
            &&& self.at(id).parent < id
            &&& paths::given_path(self.roots@, id) is None
            &&& plain_name(self.units(id))
            &&& self.first_of_its_name(id)
            &&& self.named_from(self.at(id).parent as int, top)
        }
    }

    /// The folded names from below `top` down to the node.
    spec fn trail(&self, id: int, top: int) -> Seq<Seq<char>>
        decreases id,
    {
        if id == top || !self.has(id) || self.at(id).parent >= id {
            Seq::empty()
        } else {
            self.trail(self.at(id).parent as int, top).push(text::lower(self.shown(id)))
        }
    }
}

/// The names of a trail, each after the first behind a backslash.
spec fn strung(segs: Seq<Seq<char>>) -> Seq<char>
    decreases segs.len(),
{
    if segs.len() == 0 {
        Seq::empty()
    } else if segs.len() == 1 {
        segs[0]
    } else {
        strung(segs.drop_last()).push('\\') + segs.last()
    }
}

/// Not empty and free of backslashes.
spec fn is_segment(s: Seq<char>) -> bool {
    s.len() > 0 && forall|k: int| 0 <= k < s.len() ==> s[k] != '\\'
}

/// A plain name shows as a path segment.
proof fn plain_name_shows(u: Seq<u16>)
    requires
        plain_name(u),
    ensures
        is_segment(text::lower(text::lossy(u))),
{
    let s = text::lossy(u);
    if s.len() == 0 {
        assert(text::utf16(s) =~= Seq::empty());
    }
    assert forall|k: int| 0 <= k < s.len() implies text::lower(s)[k] != '\\' by {
        assert(!is_separator(s[k]));
    }
}

/// Folding a character folds its units.
proof fn units_of_folded(c: char)
    ensures
        text::units_of_char(text::lower_char(c)).len() == text::units_of_char(c).len(),
        forall|i: int|
            0 <= i < text::units_of_char(c).len() ==> text::lower_unit(
                #[trigger] text::units_of_char(text::lower_char(c))[i],
            ) == text::lower_unit(text::units_of_char(c)[i]),
{
    vstd::utf8::char_is_scalar(c);
}

/// Folding a text folds its units.
proof fn folding_keeps_units(s: Seq<char>)
    ensures
        text::utf16(text::lower(s)).len() == text::utf16(s).len(),
        forall|i: int|
            0 <= i < text::utf16(s).len() ==> text::lower_unit(
                #[trigger] text::utf16(text::lower(s))[i],
            ) == text::lower_unit(text::utf16(s)[i]),
    decreases s.len(),
{
    let l = text::lower(s);
    if s.len() == 0 {
        assert(l =~= s);
    } else {
        units_of_folded(s[0]);
        folding_keeps_units(s.drop_first());
        assert(l[0] == text::lower_char(s[0]));
        assert(l.drop_first() =~= text::lower(s.drop_first()));
        let n = text::units_of_char(s[0]).len();
        assert forall|i: int| 0 <= i < text::utf16(s).len() implies text::lower_unit(
            #[trigger] text::utf16(l)[i],
        ) == text::lower_unit(text::utf16(s)[i]) by {
            if i < n {
                assert(text::utf16(l)[i] == text::units_of_char(l[0])[i]);
                assert(text::utf16(s)[i] == text::units_of_char(s[0])[i]);
            } else {
                assert(text::utf16(l)[i] == text::utf16(l.drop_first())[i - n]);
                assert(text::utf16(s)[i] == text::utf16(s.drop_first())[i - n]);
            }
        }
    }
}

/// Folding a text does not change what it compares equal to.
proof fn folding_keeps_comparison(u: Seq<u16>, s: Seq<char>)
    ensures
        names::same_ci(u, text::lower(s)) == names::same_ci(u, s),
{
    folding_keeps_units(s);
    let a = text::utf16(text::lower(s));
    let b = text::utf16(s);
    if names::same_ci(u, s) {
        assert forall|i: int| 0 <= i < u.len() implies text::lower_unit(#[trigger] u[i])
            == text::lower_unit(a[i]) by {
            assert(text::lower_unit(a[i]) == text::lower_unit(b[i]));
        }
    }
    if names::same_ci(u, text::lower(s)) {
        assert forall|i: int| 0 <= i < u.len() implies text::lower_unit(#[trigger] u[i])
            == text::lower_unit(b[i]) by {
            assert(text::lower_unit(a[i]) == text::lower_unit(b[i]));
        }
    }
}

/// The first node of a list with a name is found under that name.
proof fn first_is_found(t: Tree, list: Seq<u32>, j: int, seg: Seq<char>)
    requires
        0 <= j < list.len(),
        names::same_ci(t.units(list[j] as int), seg),
        forall|i: int| 0 <= i < j ==> !names::same_ci(t.units(#[trigger] list[i] as int), seg),
    ensures
        t.first_named(list, seg) == Some(list[j]),
    decreases list.len(),
{
    if j > 0 {
        assert(!names::same_ci(t.units(list[0] as int), seg));
        let rest = list.drop_first();
        assert forall|i: int| 0 <= i < j - 1 implies !names::same_ci(
            t.units(#[trigger] rest[i] as int),
            seg,
        ) by {
            assert(rest[i] == list[i + 1]);
        }
        assert(rest[j - 1] == list[j]);
        first_is_found(t, rest, j - 1, seg);
    }
}

/// Looking a node's name up in its folder gives the node.
proof fn name_finds_node(t: Tree, id: int)
    requires
        t.wf(),
        t.has(id),
        t.at(id).parent < id,
        plain_name(t.units(id)),
        t.first_of_its_name(id),
    ensures
        t.first_named(t.kids_of(t.at(id).parent as int), text::lower(t.shown(id))) == Some(
            id as u32,
        ),
{
    let s = t.shown(id);
    let list = t.kids_of(t.at(id).parent as int);
    assert(t.parent_wf(id));
    let j = list.index_of(id as u32);
    assert(list[j] == id as u32);
    assert forall|i: int| 0 <= i < j implies !names::same_ci(
        t.units(#[trigger] list[i] as int),
        text::lower(s),
    ) by {
        folding_keeps_comparison(t.units(list[i] as int), s);
    }
    folding_keeps_comparison(t.units(id), s);
    first_is_found(t, list, j, text::lower(s));
}

proof fn descend_push(t: Tree, cur: u32, segs: Seq<Seq<char>>, s: Seq<char>)
    ensures
        t.descend(cur, segs.push(s)) == match t.descend(cur, segs) {
            Some(c) => t.first_named(t.kids_of(c as int), s),
            None => None,
        },
    decreases segs.len(),
{
    let all = segs.push(s);
    if segs.len() == 0 {
        assert(all.drop_first() =~= Seq::<Seq<char>>::empty());
        if let Some(c) = t.first_named(t.kids_of(cur as int), s) {
            assert(t.descend(c, all.drop_first()) == Some(c));
        }
    } else {
        assert(all[0] == segs[0]);
        assert(all.drop_first() =~= segs.drop_first().push(s));
        if let Some(c) = t.first_named(t.kids_of(cur as int), segs[0]) {
            descend_push(t, c, segs.drop_first(), s);
        }
    }
}

/// The names down to a node lead from `top` to the node.
proof fn trail_leads(t: Tree, id: int, top: int)
    requires
        t.wf(),
        t.named_from(id, top),
        0 <= top <= u32::MAX,
    ensures
        t.descend(top as u32, t.trail(id, top)) == Some(id as u32),
        t.trail(id, top).len() > 0 <==> id != top,
        forall|k: int| 0 <= k < t.trail(id, top).len() ==> is_segment(#[trigger] t.trail(id, top)[k]),
    decreases id,
{
    if id != top {
        let up = t.at(id).parent as int;
        trail_leads(t, up, top);
        plain_name_shows(t.units(id));
        name_finds_node(t, id);
        descend_push(t, top as u32, t.trail(up, top), text::lower(t.shown(id)));
    }
}

proof fn first_index_of_segment(s: Seq<char>, sep: char)
    requires
        forall|k: int| 0 <= k < s.len() ==> s[k] != sep,
    ensures
        text::split(s, sep) =~= seq![s],
{
    text::first_index_bound(s, sep);
}

proof fn split_push(a: Seq<char>, b: Seq<char>, sep: char)
    requires
        forall|k: int| 0 <= k < b.len() ==> b[k] != sep,
    ensures
        text::split(a.push(sep) + b, sep) == text::split(a, sep).push(b),
    decreases a.len(),
{
    let all = a.push(sep) + b;
    text::first_index_bound(a, sep);
    text::first_index_bound(all, sep);
    let ka = text::first_index(a, sep) as int;
    let k = text::first_index(all, sep) as int;
    assert(all[a.len() as int] == sep);
    assert(k <= a.len()) by {
        if k > a.len() {
            assert(all[a.len() as int] != sep);
        }
    }
    if ka < a.len() {
        assert(all[ka] == sep);
        assert(k == ka) by {
            if k < ka {
                assert(a[k] != sep && all[k] == a[k]);
            }
            if k > ka {
                assert(all[ka] != sep);
            }
        }
        assert(all.take(k) =~= a.take(k));
        assert(all.skip(k + 1) =~= a.skip(k + 1).push(sep) + b);
        split_push(a.skip(k + 1), b, sep);
        assert(seq![a.take(k)] + text::split(a.skip(k + 1), sep).push(b) =~= (seq![a.take(k)]
            + text::split(a.skip(k + 1), sep)).push(b));
    } else {
        assert(k == a.len()) by {
            if k < a.len() {
                assert(a[k] != sep && all[k] == a[k]);
            }
        }
        assert(all.take(k) =~= a);
        assert(all.skip(k + 1) =~= b);
        first_index_of_segment(b, sep);
        assert(seq![a] + seq![b] =~= seq![a].push(b));
    }
}

/// Splitting a strung trail gives the trail.
proof fn split_strung(segs: Seq<Seq<char>>)
    requires
        segs.len() > 0,
        forall|k: int| 0 <= k < segs.len() ==> is_segment(#[trigger] segs[k]),
    ensures
        text::split(strung(segs), '\\') == segs,
        strung(segs).len() > 0,
        strung(segs).last() != '\\',
        strung(segs)[0] != '\\',
    decreases segs.len(),
{
    if segs.len() == 1 {
        assert(is_segment(segs[0]));
        first_index_of_segment(segs[0], '\\');
        assert(seq![segs[0]] =~= segs);
    } else {
        let init = segs.drop_last();
        assert forall|k: int| 0 <= k < init.len() implies is_segment(#[trigger] init[k]) by {
            assert(init[k] == segs[k]);
        }
        split_strung(init);
        assert(is_segment(segs.last()));
        split_push(strung(init), segs.last(), '\\');
        assert(init.push(segs.last()) =~= segs);
    }
}

proof fn folded_joined(path: Seq<char>, name: Seq<char>)
    requires
        forall|k: int| 0 <= k < name.len() ==> !is_separator(#[trigger] name[k]),
    ensures
        locate::folded(paths::joined(path, name)) == base(path) + text::lower(name),
        name.len() > 0 ==> paths::joined(path, name).len() > 0 && !is_separator(
            paths::joined(path, name).last(),
        ),
{
    let whole = paths::joined(path, name);
    assert forall|k: int| 0 <= k < name.len() implies locate::folded(name)[k] == text::lower(
        name,
    )[k] by {
        assert(!is_separator(name[k]));
    }
    assert(locate::folded(whole) =~= base(path) + text::lower(name));
    if name.len() > 0 {
        assert(whole.last() == name.last());
        assert(!is_separator(name[name.len() - 1]));
    }
}

/// The folded display path is the folded root path and the names below it.
proof fn path_folds(t: Tree, id: int, top: int, p: Seq<char>)
    requires
        t.wf(),
        t.named_from(id, top),
        id != top,
        paths::given_path(t.roots@, top) == Some(p),
    ensures
        locate::folded(t.path_of(id)) == base(p) + strung(t.trail(id, top)),
        t.path_of(id).len() > 0,
        !is_separator(t.path_of(id).last()),
    decreases id,
{
    let up = t.at(id).parent as int;
    let s = t.shown(id);
    plain_name_shows(t.units(id));
    folded_joined(t.path_of(up), s);
    let segs = t.trail(up, top);
    if up == top {
        assert(t.trail(id, top) =~= seq![text::lower(s)]);
        assert(strung(t.trail(id, top)) == text::lower(s));
    } else {
        path_folds(t, up, top, p);
        trail_len(t, up, top);
        assert(segs.push(text::lower(s)).drop_last() =~= segs);
        assert(base(t.path_of(up)) + text::lower(s) =~= base(p) + strung(t.trail(id, top)));
    }
}

proof fn trail_len(t: Tree, id: int, top: int)
    requires
        t.named_from(id, top),
        id != top,
    ensures
        t.trail(id, top).len() > 0,
{
}

/// What lies below a root is normal once it follows the normal form of the root.
proof fn normal_below(p: Seq<char>, rest: Seq<char>)
    requires
        leads(p),
        rest.len() > 0,
        rest[0] != '\\',
        rest.last() != '\\',
    ensures
        locate::no_tail_slash(locate::no_verbatim(base(p) + rest)) == locate::normal(p).push('\\')
            + rest,
{
    let v = locate::verbatim();
    let b = base(p);
    let whole = b + rest;
    assert(b.last() == '\\') by {
        if p.len() > 0 && is_separator(p.last()) {
            assert(b[p.len() - 1] == '\\');
        }
    }
    if v.is_prefix_of(b) {
        assert(whole.take(4) =~= b.take(4));
        assert(whole.skip(4) =~= b.skip(4) + rest);
    } else if v.is_prefix_of(whole) {
        assert(whole.take(4) == v);
        assert(whole[0] == v[0] && whole[1] == v[1] && whole[2] == v[2] && whole[3] == v[3]);
        if b.len() >= 4 {
            assert(b.take(4) =~= v);
        } else if b.len() == 3 {
            assert(b[2] == whole[2]);
        } else if b.len() == 2 {
            // Both characters are separators, so the root's own form is empty.
            assert(b[0] == whole[0] && b[1] == whole[1]);
            two_separators(p);
        } else {
            assert(whole[1] == rest[0]);
        }
        assert(false);
    }
    let cut = locate::no_verbatim(whole);
    assert(cut =~= locate::no_verbatim(b) + rest);
    assert(cut.last() == rest.last());
    assert(locate::no_tail_slash(cut) == cut);
}

/// A root whose path folds to two separators leads nowhere.
proof fn two_separators(p: Seq<char>)
    requires
        base(p).len() == 2,
        base(p)[0] == '\\',
        base(p)[1] == '\\',
    ensures
        !leads(p),
{
    let b = base(p);
    let f = locate::folded(p);
    assert(locate::no_verbatim(b) == b);
    if p.len() == 1 {
        assert(f[0] == b[0]);
        assert(is_separator(p[0]));
    } else {
        assert(f == b);
        assert(f.drop_last().drop_last() =~= Seq::empty());
        reveal_with_fuel(locate::no_tail_slash, 3);
        assert(locate::normal(p) =~= Seq::empty());
    }
}

proof fn first_answer(t: Tree, roots: Seq<RootRef>, j: int, path: Seq<char>)
    requires
        0 <= j < roots.len(),
    ensures
        t.located_in(roots.take(j), path) is Some ==> t.located_in(roots, path) == t.located_in(
            roots.take(j),
            path,
        ),
        t.located_in(roots.take(j), path) is None && t.below_root(roots[j], path) is Some
            ==> t.located_in(roots, path) == t.below_root(roots[j], path),
    decreases j,
{
    if j > 0 {
        let rest = roots.drop_first();
        assert(rest[j - 1] == roots[j]);
        assert(roots.take(j).drop_first() =~= rest.take(j - 1));
        first_answer(t, rest, j - 1, path);
    }
}

/// Looking up the display path of a node finds that node. The path begins at the
/// path root `j`, each name from there to the node is plain and the first of its
/// kind in its folder, and where a path root before `j` answers the path, the
/// first answer is the node too: nothing else can be found by the path, since the
/// first answer wins.
pub proof fn a_display_path_finds_its_node(t: Tree, j: int, id: int)
    requires
        t.wf(),
        0 <= j < t.roots@.len(),
        paths::given_path(t.roots@, t.roots@[j].node as int) == Some(t.roots@[j].path@),
        t.named_from(id, t.roots@[j].node as int),
        id != t.roots@[j].node ==> leads(t.roots@[j].path@),
        t.located_in(t.roots@.take(j), locate::normal(t.path_of(id))) matches Some(x) ==> x == id,
    ensures
        t.located(locate::normal(t.path_of(id))) == Some(id as u32),
{
    let root = t.roots@[j];
    let top = root.node as int;
    let p = root.path@;
    let path = locate::normal(t.path_of(id));
    if id != top {
        let segs = t.trail(id, top);
        let head = locate::normal(p).push('\\');
        trail_leads(t, id, top);
        split_strung(segs);
        path_folds(t, id, top, p);
        normal_below(p, strung(segs));
        assert(path == head + strung(segs));
        assert(path.take(head.len() as int) =~= head);
        assert(path.skip(head.len() as int) =~= strung(segs));
        assert(path != locate::normal(p)) by {
            assert(path.len() > locate::normal(p).len());
        }
    }
    first_answer(t, t.roots@, j, path);
}

proof fn tail_is_slashes(c: Seq<char>)
    ensures
        locate::no_tail_slash(c).len() <= c.len(),
        c.take(locate::no_tail_slash(c).len() as int) == locate::no_tail_slash(c),
        forall|k: int| locate::no_tail_slash(c).len() <= k < c.len() ==> c[k] == '\\',
    decreases c.len(),
{
    if c.len() > 0 && c.last() == '\\' {
        let front = c.drop_last();
        tail_is_slashes(front);
        let n = locate::no_tail_slash(c).len() as int;
        assert(c.take(n) =~= front.take(n));
        assert forall|k: int| n <= k < c.len() implies c[k] == '\\' by {
            if k < front.len() {
                assert(front[k] == '\\');
            }
        }
    } else {
        assert(c.take(c.len() as int) =~= c);
    }
}

/// In a strung trail no two separators stand side by side.
proof fn strung_is_single(segs: Seq<Seq<char>>, i: int)
    requires
        segs.len() > 0,
        forall|k: int| 0 <= k < segs.len() ==> is_segment(#[trigger] segs[k]),
        0 <= i < strung(segs).len() - 1,
        strung(segs)[i] == '\\',
    ensures
        strung(segs)[i + 1] != '\\',
    decreases segs.len(),
{
    assert(is_segment(segs.last()));
    if segs.len() == 1 {
        assert(segs.last() == segs[0]);
    } else {
        let init = segs.drop_last();
        let a = strung(init);
        assert forall|k: int| 0 <= k < init.len() implies is_segment(#[trigger] init[k]) by {
            assert(init[k] == segs[k]);
        }
        split_strung(init);
        if i < a.len() - 1 {
            strung_is_single(init, i);
        } else if i == a.len() - 1 {
            assert(strung(segs)[i] == a.last());
        } else if i == a.len() {
            assert(strung(segs)[i + 1] == segs.last()[0]);
        } else {
            assert(strung(segs)[i] == segs.last()[i - a.len() - 1]);
        }
    }
}

/// A path with an empty name leads nowhere where no child's name is empty.
proof fn empty_name_is_lost(t: Tree, top: u32, rest: Seq<char>)
    requires
        rest.len() > 0,
        rest[0] == '\\',
        forall|i: int|
            0 <= i < t.kids_of(top as int).len() ==> t.units(
                #[trigger] t.kids_of(top as int)[i] as int,
            ).len() > 0,
    ensures
        t.descend(top, text::split(rest, '\\')) is None,
{
    text::first_index_bound(rest, '\\');
    let segs = text::split(rest, '\\');
    assert(rest.take(0) =~= Seq::empty());
    assert(segs[0] =~= Seq::empty());
    no_empty_name(t, t.kids_of(top as int));
}

proof fn no_empty_name(t: Tree, list: Seq<u32>)
    requires
        forall|i: int| 0 <= i < list.len() ==> t.units(#[trigger] list[i] as int).len() > 0,
    ensures
        t.first_named(list, Seq::empty()) is None,
    decreases list.len(),
{
    if list.len() > 0 {
        assert(t.units(list[0] as int).len() > 0);
        assert(!names::same_ci(t.units(list[0] as int), Seq::empty()));
        assert forall|i: int| 0 <= i < list.drop_first().len() implies t.units(
            #[trigger] list.drop_first()[i] as int,
        ).len() > 0 by {
            assert(list.drop_first()[i] == list[i + 1]);
        }
        no_empty_name(t, list.drop_first());
    }
}

/// A path root that does not lead finds none of the nodes below it by their
/// display paths, as long as no child of it has an empty name.
pub proof fn a_root_that_does_not_lead_finds_nothing(t: Tree, j: int, id: int)
    requires
        t.wf(),
        0 <= j < t.roots@.len(),
        paths::given_path(t.roots@, t.roots@[j].node as int) == Some(t.roots@[j].path@),
        t.named_from(id, t.roots@[j].node as int),
        id != t.roots@[j].node,
        !leads(t.roots@[j].path@),
        forall|i: int|
            0 <= i < t.kids_of(t.roots@[j].node as int).len() ==> t.units(
                #[trigger] t.kids_of(t.roots@[j].node as int)[i] as int,
            ).len() > 0,
    ensures
        t.below_root(t.roots@[j], locate::normal(t.path_of(id))) is None,
{
    let root = t.roots@[j];
    let top = root.node;
    let p = root.path@;
    let v = locate::verbatim();
    let segs = t.trail(id, top as int);
    let rest = strung(segs);
    trail_leads(t, id, top as int);
    split_strung(segs);
    path_folds(t, id, top as int, p);
    let b = base(p);
    let f = locate::folded(p);
    let n = locate::normal(p);
    let head = n.push('\\');
    let whole = b + rest;
    let path = locate::normal(t.path_of(id));
    let c = locate::no_verbatim(b);
    let ends = p.len() > 0 && is_separator(p.last());
    assert(b.last() == '\\') by {
        if ends {
            assert(b[p.len() - 1] == '\\');
        }
    }
    if !ends && f.len() > 0 {
        assert(f.last() != '\\') by {
            assert(!is_separator(p[p.len() - 1]));
        }
    }
    if v.is_prefix_of(whole) && !v.is_prefix_of(b) {
        assert(whole.take(4) == v);
        assert(whole[0] == v[0] && whole[1] == v[1] && whole[2] == v[2] && whole[3] == v[3]);
        if b.len() >= 4 {
            assert(b.take(4) =~= v);
        } else if b.len() == 3 {
            assert(b[2] == whole[2]);
        } else if b.len() == 1 {
            assert(whole[1] == rest[0]);
        }
        assert(b.len() == 2);
        assert(b[0] == whole[0] && b[1] == whole[1]);
        if !ends {
            assert(f =~= seq![b[0]]);
        }
        assert(f == b);
        reveal_with_fuel(locate::no_tail_slash, 3);
        assert(f.drop_last().drop_last() =~= Seq::empty());
        assert(n =~= Seq::empty());
        assert(rest[0] == whole[2] && rest[1] == whole[3]);
        assert(rest.len() > 2);
        strung_is_single(segs, 1);
        let cut = whole.skip(4);
        assert(cut[0] == rest[2]);
        assert(cut.last() == rest.last());
        assert(path == cut);
        assert(head[0] == '\\');
    } else {
        if v.is_prefix_of(b) {
            assert(whole.take(4) =~= b.take(4));
        }
        let cut = locate::no_verbatim(whole);
        assert(cut =~= c + rest);
        assert(cut.last() == rest.last());
        assert(path == cut);
        if c.len() == 0 {
            assert(b =~= v);
            assert(path =~= rest);
            if ends {
                assert(n =~= Seq::empty());
                assert(head[0] == '\\');
            } else {
                assert(f =~= v.drop_last());
                assert(!v.is_prefix_of(f));
                assert(n == f);
                assert(n[0] == '\\' && head[0] == '\\');
            }
        } else if ends {
            assert(f == b);
            tail_is_slashes(c);
            assert(c.last() == b.last());
            assert(n == locate::no_tail_slash(c));
            assert(n.len() < c.len()) by {
                assert(locate::no_tail_slash(c) == locate::no_tail_slash(c.drop_last()));
                tail_is_slashes(c.drop_last());
            }
            assert(c.take(n.len() as int + 1) =~= head);
            if c.len() == n.len() + 1 {
                assert(c =~= head);
            }
            assert(path.take(head.len() as int) =~= head);
            let below = path.skip(head.len() as int);
            assert(below[0] == c[n.len() as int + 1]);
            empty_name_is_lost(t, top, below);
        } else {
            if v.is_prefix_of(f) {
                assert(b.take(4) =~= f.take(4));
                assert(v.is_prefix_of(b));
                assert(c =~= f.skip(4).push('\\'));
                assert(f.skip(4).len() > 0 ==> f.skip(4).last() == f.last());
                assert(n == f.skip(4));
            } else {
                if v.is_prefix_of(b) {
                    assert(b.take(4) == v);
                    assert(b.len() > 4);
                    assert(f.take(4) =~= b.take(4));
                }
                assert(n == f);
            }
            assert(leads(p));
        }
    }
}

} // verus!
