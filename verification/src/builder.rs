//! Building a tree: folders are filled in batches, parents before children.
use crate::category::Palette;
use crate::text;
use crate::tree::{BatchEntry, DirExtra, Node, RootRef, Tree, NO_EXTRA, NO_PARENT};
use vstd::prelude::*;

verus! {

/// Totals of an empty folder.
pub fn empty_extra() -> (r: DirExtra)
    ensures
        r.file_count == 0 && r.folder_count == 0 && r.max_descendant_modified == 0,
        forall|c: int| 0 <= c < 9 ==> r.type_sizes@[c] == 0,
{
    DirExtra {
        file_count: 0,
        folder_count: 0,
        max_descendant_modified: 0,
        type_sizes: [0, 0, 0, 0, 0, 0, 0, 0, 0],
    }
}

/// The ids from `base` on, `n` of them.
pub open spec fn ids_from(base: int, n: nat) -> Seq<u32> {
    Seq::new(n, |i: int| (base + i) as u32)
}

/// The node that [`Tree::append_batch`] stores for an entry.
pub open spec fn placed(n: Node, parent: u32, dir_index: u32) -> Node {
    Node { parent, dir_index, child_count: 0, ..n }
}

impl Tree {
    /// A tree that holds only its root folder.
    pub fn new(generation: u64, palette: Palette) -> (r: Self)
        requires
            palette.wf(),
        ensures
            r.wf(),
            r.size() == 1,
            r.generation == generation,
            r.palette == palette,
            r.roots@.len() == 0,
            r.at(0).dir && !r.at(0).removed && r.at(0).on_disk == 0 && r.at(0).logical == 0,
            r.units(0).len() == 0,
            r.kids_of(0).len() == 0,
    {
        let mut arena: Vec<Node> = Vec::new();
        let mut root = Node::new_dir();
        root.parent = NO_PARENT;
        root.child_count = 0;
        root.dir_index = 0;
        arena.push(root);
        let mut names: Vec<Vec<u16>> = Vec::new();
        names.push(Vec::new());
        let mut kids: Vec<Vec<u32>> = Vec::new();
        kids.push(Vec::new());
        let mut dir_extras: Vec<DirExtra> = Vec::new();
        dir_extras.push(empty_extra());
        Tree { generation, root: 0, roots: Vec::new(), arena, names, kids, dir_extras, palette }
    }

    /// Gives a node an absolute path.
    pub fn add_root_path(&mut self, node: u32, path: &str)
        requires
            old(self).wf(),
            old(self).has(node as int),
        ensures
            final(self).wf(),
            final(self).roots@.len() == old(self).roots@.len() + 1,
            final(self).roots@.drop_last() == old(self).roots@,
            final(self).roots@.last().node == node,
            final(self).roots@.last().path@ == path@,
            *final(self) == (Tree { roots: final(self).roots, ..*old(self) }),
    {
        self.roots.push(RootRef { node, path: path.to_owned() });
        proof {
            self.wf_from_parts(*old(self));
        }
    }

    /// Trees that agree on nodes and children agree on the invariant's
    /// structural part.
    proof fn wf_from_parts(self, other: Tree)
        requires
            other.wf(),
            self.arena == other.arena,
            self.names@.len() == other.names@.len(),
            self.kids == other.kids,
            self.dir_extras@.len() == other.dir_extras@.len(),
            self.root == other.root,
            self.palette == other.palette,
            forall|k: int|
                0 <= k < self.roots@.len() ==> (#[trigger] self.roots@[k]).node < self.size(),
        ensures
            self.wf(),
    {
        assert forall|id: int| self.has(id) implies #[trigger] self.kids_wf(id) by {
            assert(other.kids_wf(id));
            assert(self.kids_of(id) == other.kids_of(id));
            assert forall|j: int| 0 <= j < self.kids_of(id).len() implies {
                let c = #[trigger] self.kids_of(id)[j];
                id < c < self.size() && self.at(c as int).parent == id
            } by {
                let c = other.kids_of(id)[j];
                assert(self.at(c as int) == other.at(c as int));
            }
        }
        assert forall|id: int| self.has(id) implies #[trigger] self.parent_wf(id) by {
            assert(other.parent_wf(id));
            assert(self.at(id) == other.at(id));
            if id != 0 {
                assert(self.kids_of(self.at(id).parent as int) == other.kids_of(
                    self.at(id).parent as int,
                ));
            }
        }
        assert forall|id: int| self.has(id) && (#[trigger] self.at(id)).dir implies self.at(
            id,
        ).dir_index < self.dir_extras@.len() by {
            assert(other.at(id).dir);
        }
        assert forall|a: int, b: int|
            self.has(a) && self.has(b) && a != b && (#[trigger] self.at(a)).dir && (
            #[trigger] self.at(b)).dir implies self.at(a).dir_index != self.at(b).dir_index by {
            assert(other.at(a).dir && other.at(b).dir);
        }
    }

    /// Gives a node another name.
    pub fn set_name(&mut self, node: u32, name: &str)
        requires
            old(self).wf(),
            old(self).has(node as int),
        ensures
            final(self).wf(),
            final(self).units(node as int) == text::utf16(name@),
            forall|id: int|
                id != node ==> #[trigger] final(self).units(id) == old(self).units(id),
            *final(self) == (Tree { names: final(self).names, ..*old(self) }),
    {
        self.names.set(node as usize, text::units_of(name));
        proof {
            self.wf_from_parts(*old(self));
        }
    }
}

/// The tree `b` is the tree `a` with one more node below `parent`.
pub open spec fn grown(a: Tree, b: Tree, parent: u32, name: Seq<u16>, node: Node) -> bool {
    let id = a.size();
    &&& b.size() == id + 1
    &&& b.at(id) == placed(
        node,
        parent,
        if node.dir {
            a.dir_extras@.len() as u32
        } else {
            NO_EXTRA
        },
    )
    &&& b.units(id) == name
    &&& b.kids_of(id).len() == 0
    &&& b.kids_of(parent as int) == a.kids_of(parent as int).push(id as u32)
    &&& b.at(parent as int) == (Node {
        child_count: (a.at(parent as int).child_count + 1) as u32,
        ..a.at(parent as int)
    })
    &&& forall|x: int|
        a.has(x) ==> #[trigger] b.units(x) == a.units(x) && (x != parent ==> b.kids_of(x)
            == a.kids_of(x) && b.at(x) == a.at(x))
    &&& b.dir_extras@.len() == a.dir_extras@.len() + (if node.dir {
        1int
    } else {
        0
    })
    &&& forall|k: int|
        0 <= k < a.dir_extras@.len() ==> #[trigger] b.dir_extras@[k] == a.dir_extras@[k]
    &&& b.generation == a.generation && b.root == a.root && b.roots == a.roots && b.palette
        == a.palette
}

impl Tree {
    /// Adds one node below `parent` and returns its id.
    pub fn append(&mut self, parent: u32, name: Vec<u16>, node: Node) -> (id: u32)
        requires
            old(self).wf(),
            old(self).has(parent as int),
            old(self).size() + 1 < NO_PARENT,
        ensures
            final(self).wf(),
            id == old(self).size(),
            grown(*old(self), *final(self), parent, name@, node),
    {
        let ghost a = *self;
        let id: u32 = self.arena.len() as u32;
        assert(a.kids_wf(parent as int));
        proof {
            a.kids_bound(parent as int);
        }
        let mut n: Node = node;
        n.parent = parent;
        n.child_count = 0;
        if node.dir {
            n.dir_index = self.dir_extras.len() as u32;
            self.dir_extras.push(empty_extra());
        } else {
            n.dir_index = NO_EXTRA;
        }
        let mut p: Node = self.arena[parent as usize];
        p.child_count = p.child_count + 1;
        self.arena.set(parent as usize, p);
        self.arena.push(n);
        self.names.push(name);
        self.kids.push(Vec::new());
        self.kids[parent as usize].push(id);
        proof {
            let b = *self;
            assert(b.kids_of(parent as int) =~= a.kids_of(parent as int).push(id));
            assert forall|x: int| a.has(x) implies #[trigger] b.units(x) == a.units(x) && (x
                != parent ==> b.kids_of(x) == a.kids_of(x) && b.at(x) == a.at(x)) by {}
            assert forall|x: int| b.has(x) implies #[trigger] b.kids_wf(x) by {
                if x == id {
                } else {
                    assert(a.kids_wf(x));
                    assert(a.units(x) == b.units(x));
                    if x == parent {
                        let k = b.kids_of(x);
                        assert forall|j: int| 0 <= j < k.len() implies {
                            let c = #[trigger] k[j];
                            x < c < b.size() && b.at(c as int).parent == x
                        } by {
                            if j < a.kids_of(x).len() {
                                assert(k[j] == a.kids_of(x)[j]);
                                assert(b.units(k[j] as int) == a.units(k[j] as int));
                            }
                        }
                        assert forall|i: int, j: int|
                            0 <= i < k.len() && 0 <= j < k.len() && i != j implies k[i] != k[j] by {
                            if i < a.kids_of(x).len() {
                                assert(k[i] == a.kids_of(x)[i]);
                            }
                            if j < a.kids_of(x).len() {
                                assert(k[j] == a.kids_of(x)[j]);
                            }
                        }
                    } else {
                        assert(b.kids_of(x) == a.kids_of(x));
                        assert forall|j: int| 0 <= j < b.kids_of(x).len() implies {
                            let c = #[trigger] b.kids_of(x)[j];
                            x < c < b.size() && b.at(c as int).parent == x
                        } by {
                            let c = a.kids_of(x)[j];
                            assert(b.units(c as int) == a.units(c as int));
                        }
                    }
                }
            }
            assert forall|x: int| b.has(x) implies #[trigger] b.parent_wf(x) by {
                if x == id {
                    assert(b.kids_of(parent as int)[a.kids_of(parent as int).len() as int] == id);
                } else {
                    assert(a.parent_wf(x));
                    assert(b.units(x) == a.units(x));
                    if x != 0 {
                        let q = a.at(x).parent as int;
                        assert(b.units(q) == a.units(q));
                        let j = a.kids_of(q).index_of(x as u32);
                        assert(b.kids_of(q)[j] == x as u32);
                    }
                }
            }
            assert forall|x: int| b.has(x) && (#[trigger] b.at(x)).dir implies b.at(x).dir_index
                < b.dir_extras@.len() by {
                if x != id {
                    assert(b.units(x) == a.units(x));
                    assert(a.at(x).dir);
                }
            }
            assert forall|x: int, y: int|
                b.has(x) && b.has(y) && x != y && (#[trigger] b.at(x)).dir && (#[trigger] b.at(
                    y,
                )).dir implies b.at(x).dir_index != b.at(y).dir_index by {
                if x != id {
                    assert(b.units(x) == a.units(x));
                    assert(a.at(x).dir);
                }
                if y != id {
                    assert(b.units(y) == a.units(y));
                    assert(a.at(y).dir);
                }
            }
        }
        id
    }

    /// A folder has fewer children than the tree has nodes.
    pub proof fn kids_bound(&self, id: int)
        requires
            self.wf(),
            self.has(id),
        ensures
            self.kids_of(id).len() < self.size(),
    {
        assert(self.kids_wf(id));
        let k = self.kids_of(id);
        let ints = k.map_values(|c: u32| c as int);
        assert(ints.no_duplicates()) by {
            assert forall|i: int, j: int|
                0 <= i < ints.len() && 0 <= j < ints.len() && i != j implies ints[i] != ints[j] by {
                assert(k[i] != k[j]);
            }
        }
        let range = vstd::set_lib::set_int_range(id + 1, self.size());
        vstd::set_lib::lemma_int_range(id + 1, self.size());
        assert(ints.to_set().subset_of(range)) by {
            assert forall|x: int| ints.to_set().contains(x) implies range.contains(x) by {
                let j = ints.index_of(x);
                assert(ints[j] == k[j] as int);
            }
        }
        ints.unique_seq_to_set();
        vstd::set_lib::lemma_len_subset(ints.to_set(), range);
    }
}

/// The tree `b` is the tree `a` with the given entries added below `parent`.
pub open spec fn filled(a: Tree, b: Tree, parent: u32, entries: Seq<BatchEntry>) -> bool {
    let base = a.size();
    &&& b.size() == base + entries.len()
    &&& forall|id: int|
        base <= id < base + entries.len() ==> {
            &&& #[trigger] b.units(id) == entries[id - base].name@
            &&& b.at(id) == placed(entries[id - base].node, parent, b.at(id).dir_index)
            &&& b.kids_of(id).len() == 0
        }
    &&& b.kids_of(parent as int) == a.kids_of(parent as int) + ids_from(base, entries.len())
    &&& b.at(parent as int) == (Node {
        child_count: b.at(parent as int).child_count,
        ..a.at(parent as int)
    })
    &&& forall|x: int|
        a.has(x) ==> #[trigger] b.units(x) == a.units(x) && (x != parent ==> b.kids_of(x)
            == a.kids_of(x) && b.at(x) == a.at(x))
    &&& b.dir_extras@.len() >= a.dir_extras@.len()
    &&& forall|k: int|
        0 <= k < a.dir_extras@.len() ==> #[trigger] b.dir_extras@[k] == a.dir_extras@[k]
    &&& b.generation == a.generation && b.root == a.root && b.roots == a.roots && b.palette
        == a.palette
}

impl Tree {
    /// Adds children below `parent` in the given order; returns the id of the
    /// first one.
    pub fn append_batch(&mut self, parent: u32, entries: Vec<BatchEntry>) -> (base: u32)
        requires
            old(self).wf(),
            old(self).has(parent as int),
            old(self).size() + entries@.len() < NO_PARENT,
        ensures
            final(self).wf(),
            base == old(self).size(),
            filled(*old(self), *final(self), parent, entries@),
    {
        let ghost a = *self;
        let base: u32 = self.arena.len() as u32;
        let mut i: usize = 0;
        assert(a.kids_of(parent as int) + ids_from(base as int, 0) =~= a.kids_of(parent as int));
        while i < entries.len()
            invariant
                i <= entries.len(),
                a.wf(),
                a.has(parent as int),
                base == a.size(),
                a.size() + entries@.len() < NO_PARENT,
                self.wf(),
                filled(a, *self, parent, entries@.take(i as int)),
            decreases entries.len() - i,
        {
            let ghost mid = *self;
            let ghost done = entries@.take(i as int);
            let mut name: Vec<u16> = Vec::new();
            name.extend_from_slice(entries[i].name.as_slice());
            assert(name@ =~= entries@[i as int].name@);
            let id = self.append(parent, name, entries[i].node);
            proof {
                let b = *self;
                let more = entries@.take(i + 1);
                assert(b.units(id as int) == entries@[i as int].name@);
                assert forall|x: int| base <= x < base + more.len() implies {
                    &&& #[trigger] b.units(x) == more[x - base].name@
                    &&& b.at(x) == placed(more[x - base].node, parent, b.at(x).dir_index)
                    &&& b.kids_of(x).len() == 0
                } by {
                    if x - base < i {
                        assert(done[x - base] == more[x - base]);
                        assert(mid.units(x) == done[x - base].name@);
                        assert(b.units(x) == mid.units(x));
                    }
                }
                assert forall|x: int| a.has(x) implies #[trigger] b.units(x) == a.units(x) && (x
                    != parent ==> b.kids_of(x) == a.kids_of(x) && b.at(x) == a.at(x)) by {
                    assert(mid.units(x) == a.units(x));
                    assert(mid.has(x));
                    assert(b.units(x) == mid.units(x));
                }
                assert(b.kids_of(parent as int) =~= a.kids_of(parent as int) + ids_from(
                    base as int,
                    more.len(),
                ));
                assert forall|k: int| 0 <= k < a.dir_extras@.len() implies #[trigger] b.dir_extras@[k]
                    == a.dir_extras@[k] by {
                    assert(mid.dir_extras@[k] == a.dir_extras@[k]);
                }
            }
            i += 1;
        }
        assert(entries@.take(i as int) =~= entries@);
        base
    }
}

/// A node that is added stands last, bears its name, lies in its folder behind
/// the children that were there, and keeps what it was given; every node that was
/// there keeps its name, its sizes and its place.
pub proof fn an_added_node_stands_last(a: Tree, b: Tree, parent: u32, name: Seq<u16>, node: Node, x: int)
    requires
        a.wf(),
        a.has(parent as int),
        a.size() < u32::MAX,
        grown(a, b, parent, name, node),
        0 <= x < a.arena@.len(),
    ensures
        b.arena@.len() == a.arena@.len() + 1,
        ({
            let n = b.arena@[a.arena@.len() as int];
            &&& n.parent == parent
            &&& n.dir == node.dir && n.kind == node.kind
            &&& n.logical == node.logical && n.on_disk == node.on_disk
            &&& n.modified == node.modified && n.created == node.created
            &&& n.removed == node.removed && n.cloud == node.cloud && n.protected == node.protected
            &&& n.child_count == 0
        }),
        b.units(a.arena@.len() as int) == name,
        b.kids_of(parent as int).len() == a.kids_of(parent as int).len() + 1,
        b.kids_of(parent as int).last() == a.arena@.len(),
        b.arena@[x].parent == a.arena@[x].parent,
        b.arena@[x].logical == a.arena@[x].logical && b.arena@[x].on_disk == a.arena@[x].on_disk,
        x != parent ==> b.arena@[x] == a.arena@[x] && b.kids_of(x) == a.kids_of(x),
        b.units(x) == a.units(x),
{
    assert(b.units(x) == a.units(x));
}

} // verus!
