//! Taking recycled nodes out of a tree.
use crate::category::{CategoryStyle, Palette};
use crate::rollup;
use crate::tree::{Node, RootRef, Tree};
use vstd::prelude::*;

verus! {

/// Two trees with the same contents.
pub open spec fn same_tree(a: Tree, b: Tree) -> bool {
    &&& b.generation == a.generation
    &&& b.root == a.root
    &&& b.arena@ == a.arena@
    &&& b.dir_extras@ == a.dir_extras@
    &&& b.names@.len() == a.names@.len()
    &&& forall|i: int| 0 <= i < a.names@.len() ==> (#[trigger] b.names@[i])@ == a.names@[i]@
    &&& b.kids@.len() == a.kids@.len()
    &&& forall|i: int| 0 <= i < a.kids@.len() ==> (#[trigger] b.kids@[i])@ == a.kids@[i]@
    &&& b.roots@.len() == a.roots@.len()
    &&& forall|i: int|
        0 <= i < a.roots@.len() ==> (#[trigger] b.roots@[i]).node == a.roots@[i].node
            && b.roots@[i].path@ == a.roots@[i].path@
    &&& b.palette.styles@.len() == a.palette.styles@.len()
    &&& forall|i: int|
        0 <= i < a.palette.styles@.len() ==> (#[trigger] b.palette.styles@[i]).color
            == a.palette.styles@[i].color && b.palette.styles@[i].label@
            == a.palette.styles@[i].label@
}

/// A tree with the contents of a well-formed one is well formed.
proof fn same_tree_wf(a: Tree, b: Tree)
    requires
        a.wf(),
        same_tree(a, b),
    ensures
        b.wf(),
{
    assert forall|x: int| a.has(x) implies b.kids_of(x) == a.kids_of(x) && b.at(x) == a.at(x) by {
        assert(b.kids@[x]@ == a.kids@[x]@);
    }
    assert forall|x: int| b.has(x) implies #[trigger] b.kids_wf(x) by {
        assert(a.kids_wf(x));
        assert forall|j: int| 0 <= j < b.kids_of(x).len() implies {
            let c = #[trigger] b.kids_of(x)[j];
            x < c < b.size() && b.at(c as int).parent == x
        } by {
            let c = a.kids_of(x)[j];
        }
    }
    assert forall|x: int| b.has(x) implies #[trigger] b.parent_wf(x) by {
        assert(a.parent_wf(x));
    }
    assert forall|x: int| b.has(x) && (#[trigger] b.at(x)).dir implies b.at(x).dir_index
        < b.dir_extras@.len() by {
        assert(a.at(x).dir);
    }
    assert forall|x: int, y: int|
        b.has(x) && b.has(y) && x != y && (#[trigger] b.at(x)).dir && (#[trigger] b.at(
            y,
        )).dir implies b.at(x).dir_index != b.at(y).dir_index by {
        assert(a.at(x).dir && a.at(y).dir);
    }
}

impl Tree {
    /// A copy of a tree.
    pub fn deep_from(tree: &Tree) -> (r: Tree)
        requires
            tree.wf(),
        ensures
            same_tree(*tree, r),
            r.wf(),
    {
        let mut roots: Vec<RootRef> = Vec::new();
        let mut i: usize = 0;
        while i < tree.roots.len()
            invariant
                i <= tree.roots.len(),
                roots@.len() == i,
                forall|k: int|
                    0 <= k < i ==> (#[trigger] roots@[k]).node == tree.roots@[k].node
                        && roots@[k].path@ == tree.roots@[k].path@,
            decreases tree.roots.len() - i,
        {
            roots.push(RootRef { node: tree.roots[i].node, path: tree.roots[i].path.clone() });
            i += 1;
        }
        let mut arena: Vec<Node> = Vec::new();
        let mut names: Vec<Vec<u16>> = Vec::new();
        let mut kids: Vec<Vec<u32>> = Vec::new();
        i = 0;
        while i < tree.arena.len()
            invariant
                tree.wf(),
                i <= tree.arena.len(),
                arena@ == tree.arena@.take(i as int),
                names@.len() == i,
                kids@.len() == i,
                forall|k: int| 0 <= k < i ==> (#[trigger] names@[k])@ == tree.names@[k]@,
                forall|k: int| 0 <= k < i ==> (#[trigger] kids@[k])@ == tree.kids@[k]@,
            decreases tree.arena.len() - i,
        {
            arena.push(tree.arena[i]);
            let mut name: Vec<u16> = Vec::new();
            name.extend_from_slice(tree.names[i].as_slice());
            assert(name@ =~= tree.names@[i as int]@);
            names.push(name);
            let mut list: Vec<u32> = Vec::new();
            list.extend_from_slice(tree.kids[i].as_slice());
            assert(list@ =~= tree.kids@[i as int]@);
            kids.push(list);
            assert(arena@ =~= tree.arena@.take(i + 1));
            i += 1;
        }
        assert(tree.arena@.take(i as int) =~= tree.arena@);
        let mut dir_extras = Vec::new();
        i = 0;
        while i < tree.dir_extras.len()
            invariant
                i <= tree.dir_extras.len(),
                dir_extras@ == tree.dir_extras@.take(i as int),
            decreases tree.dir_extras.len() - i,
        {
            dir_extras.push(tree.dir_extras[i]);
            assert(dir_extras@ =~= tree.dir_extras@.take(i + 1));
            i += 1;
        }
        assert(tree.dir_extras@.take(i as int) =~= tree.dir_extras@);
        let mut styles: Vec<CategoryStyle> = Vec::new();
        i = 0;
        while i < tree.palette.styles.len()
            invariant
                i <= tree.palette.styles.len(),
                styles@.len() == i,
                forall|k: int|
                    0 <= k < i ==> (#[trigger] styles@[k]).color == tree.palette.styles@[k].color
                        && styles@[k].label@ == tree.palette.styles@[k].label@,
            decreases tree.palette.styles.len() - i,
        {
            let style = &tree.palette.styles[i];
            styles.push(CategoryStyle { label: style.label.clone(), color: style.color });
            i += 1;
        }
        let r = Tree {
            generation: tree.generation,
            root: tree.root,
            roots,
            arena,
            names,
            kids,
            dir_extras,
            palette: Palette { styles },
        };
        proof {
            same_tree_wf(*tree, r);
        }
        r
    }

    /// The node is one of the given ones or lies below one.
    pub open spec fn below_any(&self, x: int, ids: Seq<u32>) -> bool {
        exists|i: int| 0 <= i < ids.len() && #[trigger] self.under(x, ids[i] as int)
    }

    /// The node that navigation falls back to: the nearest live one on the way
    /// up, in the end the scan root.
    pub open spec fn survivor(&self, id: int) -> int
        decreases id,
    {
        if !self.has(id) || id == 0 {
            0
        } else if !self.at(id).removed {
            id
        } else if self.at(id).parent < id {
            self.survivor(self.at(id).parent as int)
        } else {
            0
        }
    }
}

/// The tree `b` is `a` without what lies below the given nodes: those are marked
/// as removed, nothing else changes its place, its name or its marks, and files
/// keep their sizes.
pub open spec fn taken_out(a: Tree, b: Tree, ids: Seq<u32>) -> bool {
    &&& b.size() == a.size()
    &&& b.generation == a.generation + 1
    &&& b.names == a.names
    &&& b.root == a.root
    &&& b.roots == a.roots
    &&& b.palette == a.palette
    &&& forall|x: int|
        a.has(x) ==> {
            &&& (#[trigger] b.at(x)) == (Node {
                removed: a.at(x).removed || a.below_any(x, ids),
                logical: b.at(x).logical,
                on_disk: b.at(x).on_disk,
                ..a.at(x)
            })
            &&& !a.at(x).dir ==> b.at(x).logical == a.at(x).logical && b.at(x).on_disk == a.at(
                x,
            ).on_disk
            &&& b.kids_of(x).to_multiset() == a.kids_of(x).to_multiset()
        }
}

/// Changing marks alone keeps the invariant.
proof fn marks_keep_wf(a: Tree, b: Tree)
    requires
        a.wf(),
        b.arena@.len() == a.arena@.len(),
        b.kids == a.kids,
        b.names == a.names,
        b.dir_extras == a.dir_extras,
        b.root == a.root,
        b.roots == a.roots,
        b.palette == a.palette,
        forall|x: int|
            a.has(x) ==> (#[trigger] b.at(x)) == (Node { removed: b.at(x).removed, ..a.at(x) }),
    ensures
        b.wf(),
{
    assert forall|x: int| b.has(x) implies #[trigger] b.kids_wf(x) by {
        assert(a.kids_wf(x));
        assert(b.at(x).child_count == a.at(x).child_count);
        assert forall|j: int| 0 <= j < b.kids_of(x).len() implies {
            let c = #[trigger] b.kids_of(x)[j];
            x < c < b.size() && b.at(c as int).parent == x
        } by {
            let c = a.kids_of(x)[j];
            assert(b.at(c as int).parent == a.at(c as int).parent);
        }
    }
    assert forall|x: int| b.has(x) implies #[trigger] b.parent_wf(x) by {
        assert(a.parent_wf(x));
        assert(b.at(x).parent == a.at(x).parent);
    }
    assert forall|x: int| b.has(x) && (#[trigger] b.at(x)).dir implies b.at(x).dir_index
        < b.dir_extras@.len() by {
        assert(a.at(x).dir);
    }
    assert forall|x: int, y: int|
        b.has(x) && b.has(y) && x != y && (#[trigger] b.at(x)).dir && (#[trigger] b.at(
            y,
        )).dir implies b.at(x).dir_index != b.at(y).dir_index by {
        assert(a.at(x).dir && a.at(y).dir);
    }
}

/// Whether a list of ids holds an id.
fn holds(ids: &[u32], id: u32) -> (r: bool)
    ensures
        r == ids@.contains(id),
{
    let mut i: usize = 0;
    while i < ids.len()
        invariant
            i <= ids.len(),
            forall|k: int| 0 <= k < i ==> ids@[k] != id,
        decreases ids.len() - i,
    {
        if ids[i] == id {
            assert(ids@[i as int] == id);
            return true;
        }
        i += 1;
    }
    false
}

impl Tree {
    /// Being below one of the given nodes is being one, or hanging below a node
    /// that is.
    proof fn below_any_step(&self, x: int, ids: Seq<u32>)
        requires
            self.wf(),
            self.has(x),
        ensures
            self.below_any(x, ids) == (ids.contains(x as u32) || (x != 0 && self.below_any(
                self.at(x).parent as int,
                ids,
            ))),
    {
        assert(self.parent_wf(x));
        let up = self.at(x).parent as int;
        if self.below_any(x, ids) {
            let i = choose|i: int| 0 <= i < ids.len() && #[trigger] self.under(x, ids[i] as int);
            if ids[i] != x as u32 {
                assert(self.under(up, ids[i] as int));
                if x == 0 {
                    self.under_is_later(x, ids[i] as int);
                }
            }
        }
        if ids.contains(x as u32) {
            let i = ids.index_of(x as u32);
            assert(self.under(x, ids[i] as int));
        }
        if x != 0 && self.below_any(up, ids) {
            let i = choose|i: int| 0 <= i < ids.len() && #[trigger] self.under(up, ids[i] as int);
            assert(self.under(x, ids[i] as int));
        }
    }

    /// Takes the given nodes out of the tree, with everything below them: they
    /// are marked as removed, the totals of the folders above are those of what
    /// is left, and the tree gets the next generation.
    pub fn remove_subtrees(&mut self, ids: &[u32])
        requires
            old(self).wf(),
            old(self).generation < u64::MAX,
        ensures
            final(self).wf(),
            final(self).finalized(),
            taken_out(*old(self), *final(self), ids@),
            final(self).generation == old(self).generation + 1,
            final(self).arena@.len() == old(self).arena@.len(),
            final(self).names == old(self).names,
            forall|x: int|
                0 <= x < old(self).arena@.len() ==> ((#[trigger] final(self).arena@[x]).removed <==> (
                old(self).arena@[x].removed || exists|i: int|
                    0 <= i < ids@.len() && #[trigger] old(self).under(x, ids@[i] as int))),
            forall|x: int|
                0 <= x < old(self).arena@.len() ==> {
                    &&& (#[trigger] final(self).arena@[x]).parent == old(self).arena@[x].parent
                    &&& final(self).arena@[x].dir == old(self).arena@[x].dir
                    &&& final(self).arena@[x].protected == old(self).arena@[x].protected
                    &&& final(self).arena@[x].cloud == old(self).arena@[x].cloud
                    &&& final(self).arena@[x].kind == old(self).arena@[x].kind
                    &&& final(self).arena@[x].modified == old(self).arena@[x].modified
                    &&& !old(self).arena@[x].dir ==> final(self).arena@[x].logical == old(self).arena@[x].logical && final(self).arena@[x].on_disk == old(self).arena@[x].on_disk
                },
    {
        let ghost a = *self;
        let mut hit: Vec<bool> = Vec::new();
        let mut arena: Vec<Node> = Vec::new();
        let mut x: usize = 0;
        while x < self.arena.len()
            invariant
                a.wf(),
                *self == a,
                x <= a.size(),
                hit@.len() == x,
                arena@.len() == x,
                forall|k: int| 0 <= k < x ==> #[trigger] hit@[k] == a.below_any(k, ids@),
                forall|k: int|
                    0 <= k < x ==> #[trigger] arena@[k] == (Node {
                        removed: a.at(k).removed || a.below_any(k, ids@),
                        ..a.at(k)
                    }),
            decreases self.arena.len() - x,
        {
            proof {
                a.below_any_step(x as int, ids@);
                assert(a.parent_wf(x as int));
            }
            let mut n: Node = self.arena[x];
            let below: bool = x > 0 && hit[n.parent as usize];
            let out: bool = below || holds(ids, x as u32);
            n.removed = n.removed || out;
            hit.push(out);
            arena.push(n);
            x += 1;
        }
        self.arena = arena;
        self.generation = self.generation + 1;
        let ghost m = *self;
        proof {
            assert forall|k: int| a.has(k) implies (#[trigger] m.at(k)) == (Node {
                removed: m.at(k).removed,
                ..a.at(k)
            }) by {
                assert(m.arena@[k] == m.at(k));
            }
            marks_keep_wf(a, m);
        }
        self.finalize();
        proof {
            let b = *self;
            assert(rollup::same_nodes(m, b));
            assert forall|k: int| a.has(k) implies {
                &&& (#[trigger] b.at(k)) == (Node {
                    removed: a.at(k).removed || a.below_any(k, ids@),
                    logical: b.at(k).logical,
                    on_disk: b.at(k).on_disk,
                    ..a.at(k)
                })
                &&& !a.at(k).dir ==> b.at(k).logical == a.at(k).logical && b.at(k).on_disk == a.at(
                    k,
                ).on_disk
                &&& b.kids_of(k).to_multiset() == a.kids_of(k).to_multiset()
            } by {
                assert(m.arena@[k] == m.at(k));
                assert(m.kids_of(k) == a.kids_of(k));
            }
            assert forall|k: int| 0 <= k < a.arena@.len() implies #[trigger] b.arena@[k] == (Node {
                removed: a.at(k).removed || a.below_any(k, ids@),
                logical: b.at(k).logical,
                on_disk: b.at(k).on_disk,
                ..a.at(k)
            }) && (!a.at(k).dir ==> b.at(k).logical == a.at(k).logical && b.at(k).on_disk == a.at(
                k,
            ).on_disk) by {
                assert(b.at(k) == b.arena@[k]);
            }
        }
    }

    /// Where navigation lands: the nearest live node on the way up.
    pub fn fixup_navigation(&self, node: u32) -> (r: u32)
        requires
            self.wf(),
        ensures
            r == self.survivor(node as int),
    {
        let mut cur: u32 = node;
        if (cur as usize) >= self.arena.len() {
            return 0;
        }
        while cur > 0 && self.arena[cur as usize].removed
            invariant
                self.wf(),
                self.has(cur as int),
                self.survivor(node as int) == self.survivor(cur as int),
            decreases cur,
        {
            assert(self.parent_wf(cur as int));
            cur = self.arena[cur as usize].parent;
        }
        cur
    }
}

/// Navigation lands on a node above the one that was open; unless it lands on
/// the scan root, that node is live, and everything between is removed.
pub proof fn navigation_lands_above(t: Tree, id: int)
    requires
        t.wf(),
        t.has(id),
    ensures
        t.under(id, t.survivor(id)),
        t.survivor(id) != 0 ==> !t.at(t.survivor(id)).removed,
        forall|x: int|
            #[trigger] t.under(id, x) && t.under(x, t.survivor(id)) && x != t.survivor(id)
                ==> t.at(x).removed,
    decreases id,
{
    assert(t.parent_wf(id));
    let s = t.survivor(id);
    if id != 0 && t.at(id).removed {
        let up = t.at(id).parent as int;
        navigation_lands_above(t, up);
        assert forall|x: int|
            #[trigger] t.under(id, x) && t.under(x, s) && x != s implies t.at(x).removed by {
            if x != id {
                assert(t.under(up, x));
            }
        }
    } else {
        assert forall|x: int| #[trigger] t.under(id, x) && t.under(x, s) && x != s implies t.at(
            x,
        ).removed by {
            t.under_is_later(id, x);
            t.under_is_later(x, s);
        }
    }
}

/// Taking nodes out leaves no live node below them, and every other node as live
/// as it was.
pub proof fn only_what_was_named_is_taken_out(a: Tree, b: Tree, ids: Seq<u32>, x: int)
    requires
        a.wf(),
        a.has(x),
        taken_out(a, b, ids),
    ensures
        a.below_any(x, ids) ==> b.at(x).removed,
        !a.below_any(x, ids) ==> b.at(x).removed == a.at(x).removed,
        b.units(x) == a.units(x),
        b.at(x).parent == a.at(x).parent,
{
    assert(b.at(x).parent == a.at(x).parent);
}

/// The contents of two equal trees lie in the same places.
pub proof fn same_tree_under(a: Tree, b: Tree, x: int, top: int)
    requires
        same_tree(a, b),
    ensures
        b.under(x, top) == a.under(x, top),
    decreases x,
{
    if a.has(x) && x != top && a.at(x).parent < x {
        assert(b.at(x) == a.at(x));
        same_tree_under(a, b, a.at(x).parent as int, top);
    }
}

} // verus!
