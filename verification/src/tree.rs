//! The scanned tree: an arena of nodes, children after their parents.
use crate::category::{FileCategory, Palette};
use crate::text;
use vstd::prelude::*;

verus! {

/// Parent of the scan root.
pub const NO_PARENT: u32 = u32::MAX;

/// `dir_index` of a file.
pub const NO_EXTRA: u32 = u32::MAX;

/// One file or folder.
#[derive(Clone, Copy, Debug)]
pub struct Node {
    /// Id of the containing folder; [`NO_PARENT`] for the scan root.
    pub parent: u32,
    /// Logical size in bytes.
    pub logical: u64,
    /// Allocated size in bytes.
    pub on_disk: u64,
    /// Last modification, Unix seconds (0 unknown).
    pub modified: i64,
    /// Creation, Unix seconds (0 unknown).
    pub created: i64,
    /// Number of direct children.
    pub child_count: u32,
    /// Index of the folder's totals; [`NO_EXTRA`] for files.
    pub dir_index: u32,
    pub dir: bool,
    pub removed: bool,
    pub protected: bool,
    pub cloud: bool,
    pub kind: FileCategory,
}

impl Node {
    /// A folder with nothing in it.
    pub fn new_dir() -> (r: Self)
        ensures
            r.dir,
            !r.removed && !r.protected && !r.cloud,
            r.logical == 0 && r.on_disk == 0 && r.modified == 0 && r.created == 0,
            r.kind == FileCategory::Other,
    {
        Node {
            parent: NO_PARENT,
            logical: 0,
            on_disk: 0,
            modified: 0,
            created: 0,
            child_count: 0,
            dir_index: NO_EXTRA,
            dir: true,
            removed: false,
            protected: false,
            cloud: false,
            kind: FileCategory::Other,
        }
    }

    /// An empty file.
    pub fn new_file() -> (r: Self)
        ensures
            !r.dir,
            !r.removed && !r.protected && !r.cloud,
            r.logical == 0 && r.on_disk == 0 && r.modified == 0 && r.created == 0,
            r.kind == FileCategory::Other,
    {
        Node {
            parent: NO_PARENT,
            logical: 0,
            on_disk: 0,
            modified: 0,
            created: 0,
            child_count: 0,
            dir_index: NO_EXTRA,
            dir: false,
            removed: false,
            protected: false,
            cloud: false,
            kind: FileCategory::Other,
        }
    }

    /// Sets the file's category.
    pub fn set_category(&mut self, c: FileCategory)
        ensures
            *final(self) == (Node { kind: c, ..*old(self) }),
    {
        self.kind = c;
    }
}

/// Totals over everything below one folder.
#[derive(Clone, Copy, Debug)]
pub struct DirExtra {
    pub file_count: u64,
    pub folder_count: u64,
    /// Most recent modification of a descendant (0 unknown).
    pub max_descendant_modified: i64,
    /// Bytes on disk per category.
    pub type_sizes: [u64; 9],
}

/// A node that carries an absolute path of its own.
#[derive(Clone, Debug)]
pub struct RootRef {
    pub node: u32,
    pub path: String,
}

/// A new child for [`Tree::append_batch`].
#[derive(Clone, Debug)]
pub struct BatchEntry {
    /// UTF-16 name.
    pub name: Vec<u16>,
    pub node: Node,
}

/// The scanned tree.
///
/// Node 0 is the scan root; every other node has a parent with a smaller id
/// and stands exactly once in that parent's child list.
#[derive(Debug)]
pub struct Tree {
    pub generation: u64,
    pub root: u32,
    /// Nodes with an absolute path (the scan root, drives).
    pub roots: Vec<RootRef>,
    pub arena: Vec<Node>,
    /// UTF-16 name of each node.
    pub names: Vec<Vec<u16>>,
    /// Child ids of each node.
    pub kids: Vec<Vec<u32>>,
    pub dir_extras: Vec<DirExtra>,
    pub palette: Palette,
}

impl Tree {
    /// Number of nodes.
    pub open spec fn size(&self) -> int {
        self.arena@.len() as int
    }

    /// The id belongs to a node.
    pub open spec fn has(&self, id: int) -> bool {
        0 <= id < self.arena@.len()
    }

    /// The node with an id.
    pub open spec fn at(&self, id: int) -> Node {
        self.arena@[id]
    }

    /// Children of a node, in stored order.
    pub open spec fn kids_of(&self, id: int) -> Seq<u32> {
        if self.has(id) {
            self.kids@[id]@
        } else {
            Seq::empty()
        }
    }

    /// UTF-16 name of a node.
    pub open spec fn units(&self, id: int) -> Seq<u16> {
        if self.has(id) {
            self.names@[id]@
        } else {
            Seq::empty()
        }
    }

    /// Name of a node as shown.
    pub open spec fn shown(&self, id: int) -> Seq<char> {
        text::lossy(self.units(id))
    }

    /// Children come after their parent, name it as their parent, and stand in
    /// its list once.
    pub open spec fn kids_wf(&self, id: int) -> bool {
        &&& self.kids_of(id).no_duplicates()
        &&& self.at(id).child_count == self.kids_of(id).len()
        &&& forall|j: int|
            0 <= j < self.kids_of(id).len() ==> {
                let c = #[trigger] self.kids_of(id)[j];
                id < c < self.size() && self.at(c as int).parent == id
            }
    }

    /// The node hangs below an earlier one, or is the scan root.
    pub open spec fn parent_wf(&self, id: int) -> bool {
        if id == 0 {
            self.at(id).parent == NO_PARENT
        } else {
            self.at(id).parent < id && self.kids_of(self.at(id).parent as int).contains(id as u32)
        }
    }

    /// The invariant of a tree.
    pub open spec fn wf(&self) -> bool {
        &&& 1 <= self.size() < NO_PARENT
        &&& self.names@.len() == self.size()
        &&& self.kids@.len() == self.size()
        &&& self.dir_extras@.len() <= self.size()
        &&& self.root == 0
        &&& self.palette.wf()
        &&& forall|id: int| self.has(id) ==> #[trigger] self.kids_wf(id)
        &&& forall|id: int| self.has(id) ==> #[trigger] self.parent_wf(id)
        &&& forall|id: int|
            self.has(id) && (#[trigger] self.at(id)).dir ==> self.at(id).dir_index
                < self.dir_extras@.len()
        &&& forall|a: int, b: int|
            self.has(a) && self.has(b) && a != b && (#[trigger] self.at(a)).dir && (
            #[trigger] self.at(b)).dir ==> self.at(a).dir_index != self.at(b).dir_index
        &&& forall|k: int|
            0 <= k < self.roots@.len() ==> (#[trigger] self.roots@[k]).node < self.size()
    }

    /// Number of nodes.
    pub fn len(&self) -> (r: usize)
        ensures
            r == self.size(),
    {
        self.arena.len()
    }

    /// The node with an id, if there is one.
    pub fn node(&self, id: u32) -> (r: Option<Node>)
        ensures
            r == (if self.has(id as int) { Some(self.at(id as int)) } else { None::<Node> }),
    {
        if (id as usize) < self.arena.len() {
            Some(self.arena[id as usize])
        } else {
            None
        }
    }

    /// Children in stored order: largest first once the sizes are rolled up.
    pub fn children_sorted(&self, id: u32) -> (r: &[u32])
        requires
            self.wf(),
        ensures
            r@ == self.kids_of(id as int),
    {
        if (id as usize) < self.arena.len() {
            self.kids[id as usize].as_slice()
        } else {
            &[]
        }
    }

    /// UTF-16 name; empty for an unknown id.
    pub fn name_u16(&self, id: u32) -> (r: &[u16])
        requires
            self.wf(),
        ensures
            r@ == self.units(id as int),
    {
        if (id as usize) < self.arena.len() {
            self.names[id as usize].as_slice()
        } else {
            &[]
        }
    }

    /// Name as shown; empty for an unknown id.
    pub fn name(&self, id: u32) -> (r: String)
        requires
            self.wf(),
        ensures
            r@ == self.shown(id as int),
    {
        text::lossy_string(self.name_u16(id))
    }
}

// ---------------------------------------------------------------------------
// Ancestors and subtrees
// ---------------------------------------------------------------------------

impl Tree {
    /// `id` is `top` or lies somewhere below it.
    pub open spec fn under(&self, id: int, top: int) -> bool
        decreases id,
    {
        if !self.has(id) {
            false
        } else if id == top {
            true
        } else {
            self.at(id).parent < id && self.under(self.at(id).parent as int, top)
        }
    }

    /// A node and everything below it, each folder before its contents and
    /// siblings in stored order.
    pub open spec fn preorder(&self, id: int) -> Seq<u32>
        decreases self.size() - id, self.kids_of(id).len() + 1,
    {
        if self.has(id) {
            seq![id as u32] + self.preorder_from(id, 0)
        } else {
            Seq::empty()
        }
    }

    /// The children of `id` from position `j` on, each with what lies below.
    pub open spec fn preorder_from(&self, id: int, j: int) -> Seq<u32>
        decreases self.size() - id, self.kids_of(id).len() - j,
    {
        let k = self.kids_of(id);
        if j < 0 || j >= k.len() {
            Seq::empty()
        } else if id < k[j] < self.size() {
            self.preorder(k[j] as int) + self.preorder_from(id, j + 1)
        } else {
            self.preorder_from(id, j + 1)
        }
    }

    /// Subtrees waiting on a stack, the top one first.
    spec fn pending(&self, stack: Seq<u32>) -> Seq<u32>
        decreases stack.len(),
    {
        if stack.len() == 0 {
            Seq::empty()
        } else {
            self.preorder(stack.last() as int) + self.pending(stack.drop_last())
        }
    }

    /// Whether `id` is `top` or lies below it.
    pub fn is_descendant_of(&self, id: u32, top: u32) -> (r: bool)
        requires
            self.wf(),
        ensures
            r == self.under(id as int, top as int),
    {
        let mut cur: u32 = id;
        if (cur as usize) >= self.arena.len() {
            return false;
        }
        while cur != top
            invariant
                self.wf(),
                self.has(cur as int),
                self.under(id as int, top as int) == self.under(cur as int, top as int),
            decreases cur,
        {
            assert(self.parent_wf(cur as int));
            if cur == 0 {
                return false;
            }
            cur = self.arena[cur as usize].parent;
        }
        true
    }

    /// Pushing the children of `id` from the last to the first leaves them
    /// waiting in stored order.
    proof fn pending_kids(&self, stack: Seq<u32>, id: int, j: int)
        requires
            self.wf(),
            self.has(id),
            0 <= j <= self.kids_of(id).len(),
        ensures
            self.pending(
                stack + self.kids_of(id).subrange(j, self.kids_of(id).len() as int).reverse(),
            ) == self.preorder_from(id, j) + self.pending(stack),
        decreases self.kids_of(id).len() - j,
    {
        let k = self.kids_of(id);
        let rest = k.subrange(j, k.len() as int);
        if j == k.len() {
            assert(stack + rest.reverse() =~= stack);
            assert(self.preorder_from(id, j) + self.pending(stack) =~= self.pending(stack));
        } else {
            assert(self.kids_wf(id));
            let tail = k.subrange(j + 1, k.len() as int);
            let whole = stack + rest.reverse();
            assert(whole.last() == k[j]);
            assert(whole.drop_last() =~= stack + tail.reverse());
            self.pending_kids(stack, id, j + 1);
            assert(self.preorder(k[j] as int) + (self.preorder_from(id, j + 1) + self.pending(stack))
                =~= self.preorder_from(id, j) + self.pending(stack));
        }
    }

    /// All ids from `start` down, folders before their contents.
    pub fn walk(&self, start: u32) -> (r: Vec<u32>)
        requires
            self.wf(),
        ensures
            r@ == self.preorder(start as int),
    {
        let mut out: Vec<u32> = Vec::new();
        if (start as usize) >= self.arena.len() {
            return out;
        }
        let mut stack: Vec<u32> = Vec::new();
        stack.push(start);
        proof {
            assert(stack@.drop_last() =~= Seq::empty());
            assert(self.pending(stack@.drop_last()) =~= Seq::empty());
            assert(out@ + self.pending(stack@) =~= self.preorder(start as int));
        }
        while stack.len() > 0
            invariant
                self.wf(),
                forall|k: int| 0 <= k < stack@.len() ==> self.has(#[trigger] stack@[k] as int),
                out@ + self.pending(stack@) == self.preorder(start as int),
            decreases self.preorder(start as int).len() - out@.len(),
        {
            let ghost before_stack = stack@;
            let ghost before_out = out@;
            let id: u32 = stack.pop().unwrap();
            proof {
                assert(before_stack.last() == id);
                assert(before_stack.drop_last() =~= stack@);
                assert(self.has(before_stack[before_stack.len() - 1] as int));
                assert(self.kids_wf(id as int));
            }
            out.push(id);
            let ghost base = stack@;
            let list = &self.kids[id as usize];
            assert(list@ == self.kids_of(id as int));
            let mut j: usize = list.len();
            assert(base + list@.subrange(j as int, list@.len() as int).reverse() =~= base);
            while j > 0
                invariant
                    self.wf(),
                    self.has(id as int),
                    list@ == self.kids_of(id as int),
                    self.kids_wf(id as int),
                    j <= list.len(),
                    forall|k: int| 0 <= k < stack@.len() ==> self.has(#[trigger] stack@[k] as int),
                    stack@ == base + list@.subrange(j as int, list@.len() as int).reverse(),
                decreases j,
            {
                j -= 1;
                let c: u32 = list[j];
                assert(self.kids_of(id as int)[j as int] == c);
                stack.push(c);
                assert(stack@ =~= base + list@.subrange(j as int, list@.len() as int).reverse());
            }
            proof {
                self.pending_kids(base, id as int, 0);
                assert(list@.subrange(0, list@.len() as int) =~= list@);
                let below = self.preorder_from(id as int, 0);
                assert(self.pending(before_stack) == (seq![id] + below) + self.pending(base));
                assert(before_out + ((seq![id] + below) + self.pending(base)) =~= out@ + (below
                    + self.pending(base)));
            }
        }
        assert(out@ + self.pending(stack@) =~= out@);
        out
    }
}

impl Tree {
    /// What lies below a child lies below its parent.
    pub proof fn under_parent(&self, x: int, c: int)
        requires
            self.wf(),
            self.has(c),
            c != 0,
            self.under(x, c),
        ensures
            self.under(x, self.at(c).parent as int),
        decreases x,
    {
        assert(self.parent_wf(c));
        if x != c {
            self.under_parent(self.at(x).parent as int, c);
        } else {
            assert(self.under(self.at(c).parent as int, self.at(c).parent as int));
        }
    }

    /// Nothing lies below a later node.
    pub proof fn under_is_later(&self, x: int, top: int)
        requires
            self.under(x, top),
        ensures
            top <= x,
            self.has(x),
            self.has(top),
        decreases x,
    {
        if x != top {
            self.under_is_later(self.at(x).parent as int, top);
        }
    }

    /// "Lies below" composes.
    pub proof fn under_trans(&self, x: int, m: int, top: int)
        requires
            self.under(x, m),
            self.under(m, top),
        ensures
            self.under(x, top),
        decreases x,
    {
        if x != m {
            self.under_is_later(m, top);
            self.under_is_later(x, m);
            self.under_trans(self.at(x).parent as int, m, top);
        }
    }

    /// Of two folders above one node, one is above the other.
    pub proof fn under_chain(&self, x: int, a: int, b: int)
        requires
            self.under(x, a),
            self.under(x, b),
        ensures
            self.under(a, b) || self.under(b, a),
        decreases x,
    {
        if x != a && x != b {
            self.under_chain(self.at(x).parent as int, a, b);
        }
    }

    /// Two different children of one folder have nothing below them in common.
    proof fn siblings_disjoint(&self, id: int, a: int, b: int, x: int)
        requires
            self.wf(),
            self.has(id),
            0 <= a < self.kids_of(id).len(),
            0 <= b < self.kids_of(id).len(),
            a != b,
        ensures
            !(self.under(x, self.kids_of(id)[a] as int) && self.under(
                x,
                self.kids_of(id)[b] as int,
            )),
    {
        assert(self.kids_wf(id));
        let ca = self.kids_of(id)[a] as int;
        let cb = self.kids_of(id)[b] as int;
        if self.under(x, ca) && self.under(x, cb) {
            self.under_chain(x, ca, cb);
            if self.under(ca, cb) {
                assert(self.under(id, cb));
                self.under_is_later(id, cb);
            } else {
                assert(self.under(id, ca));
                self.under_is_later(id, ca);
            }
        }
    }

    /// Every listed node lies below the start.
    proof fn preorder_sound(&self, id: int)
        requires
            self.wf(),
            self.has(id),
        ensures
            forall|x: u32| self.preorder(id).contains(x) ==> self.under(x as int, id),
        decreases self.size() - id, self.kids_of(id).len() + 1,
    {
        self.preorder_from_sound(id, 0);
        assert forall|x: u32| self.preorder(id).contains(x) implies self.under(x as int, id) by {
            let k = self.preorder(id).index_of(x);
            assert(self.preorder(id)[k] == x);
            if k > 0 {
                assert(self.preorder_from(id, 0)[k - 1] == x);
                assert(self.preorder_from(id, 0).contains(x));
                let m = choose|m: int|
                    0 <= m < self.kids_of(id).len() && self.under(
                        x as int,
                        #[trigger] self.kids_of(id)[m] as int,
                    );
                assert(self.kids_wf(id));
                self.under_parent(x as int, self.kids_of(id)[m] as int);
            }
        }
    }

    proof fn preorder_from_sound(&self, id: int, j: int)
        requires
            self.wf(),
            self.has(id),
            0 <= j <= self.kids_of(id).len(),
        ensures
            forall|x: u32|
                self.preorder_from(id, j).contains(x) ==> exists|m: int|
                    j <= m < self.kids_of(id).len() && self.under(
                        x as int,
                        #[trigger] self.kids_of(id)[m] as int,
                    ),
        decreases self.size() - id, self.kids_of(id).len() - j,
    {
        let k = self.kids_of(id);
        if j < k.len() {
            assert(self.kids_wf(id));
            let c = k[j];
            self.preorder_sound(c as int);
            self.preorder_from_sound(id, j + 1);
            let here = self.preorder(c as int);
            let rest = self.preorder_from(id, j + 1);
            assert forall|x: u32| self.preorder_from(id, j).contains(x) implies exists|m: int|
                j <= m < k.len() && self.under(x as int, #[trigger] k[m] as int) by {
                let p = (here + rest).index_of(x);
                assert((here + rest)[p] == x);
                if p < here.len() {
                    assert(here[p] == x);
                    assert(self.under(x as int, k[j] as int));
                } else {
                    assert(rest[p - here.len()] == x);
                    assert(rest.contains(x));
                }
            }
        }
    }

    /// Everything below the start is listed.
    proof fn preorder_complete(&self, id: int, x: int)
        requires
            self.wf(),
            self.under(x, id),
        ensures
            self.preorder(id).contains(x as u32),
        decreases x,
    {
        self.under_is_later(x, id);
        if x == id {
            assert(self.preorder(id)[0] == x as u32);
        } else {
            let p = self.at(x).parent as int;
            self.preorder_complete(id, p);
            assert(self.parent_wf(x));
            let m = self.kids_of(p).index_of(x as u32);
            self.preorder_closed(id, p, m);
        }
    }

    /// Where a folder is listed, so are its children.
    proof fn preorder_closed(&self, id: int, p: int, m: int)
        requires
            self.wf(),
            self.has(id),
            self.has(p),
            self.preorder(id).contains(p as u32),
            0 <= m < self.kids_of(p).len(),
        ensures
            self.preorder(id).contains(self.kids_of(p)[m]),
        decreases self.size() - id, self.kids_of(id).len() + 1,
    {
        let whole = self.preorder(id);
        let k = whole.index_of(p as u32);
        assert(whole[k] == p as u32);
        if k == 0 {
            self.preorder_from_head(id, 0, m);
            let q = self.preorder_from(id, 0).index_of(self.kids_of(p)[m]);
            assert(whole[q + 1] == self.kids_of(p)[m]);
        } else {
            assert(self.preorder_from(id, 0)[k - 1] == p as u32);
            self.preorder_from_closed(id, 0, p, m);
            let q = self.preorder_from(id, 0).index_of(self.kids_of(p)[m]);
            assert(whole[q + 1] == self.kids_of(p)[m]);
        }
    }

    proof fn preorder_from_head(&self, id: int, j: int, m: int)
        requires
            self.wf(),
            self.has(id),
            0 <= j <= m < self.kids_of(id).len(),
        ensures
            self.preorder_from(id, j).contains(self.kids_of(id)[m]),
        decreases self.kids_of(id).len() - j,
    {
        assert(self.kids_wf(id));
        let c = self.kids_of(id)[j];
        let here = self.preorder(c as int);
        let rest = self.preorder_from(id, j + 1);
        if j == m {
            assert((here + rest)[0] == c);
        } else {
            self.preorder_from_head(id, j + 1, m);
            let q = rest.index_of(self.kids_of(id)[m]);
            assert((here + rest)[here.len() + q] == self.kids_of(id)[m]);
        }
    }

    proof fn preorder_from_closed(&self, id: int, j: int, p: int, m: int)
        requires
            self.wf(),
            self.has(id),
            self.has(p),
            0 <= j <= self.kids_of(id).len(),
            self.preorder_from(id, j).contains(p as u32),
            0 <= m < self.kids_of(p).len(),
        ensures
            self.preorder_from(id, j).contains(self.kids_of(p)[m]),
        decreases self.size() - id, self.kids_of(id).len() - j,
    {
        assert(self.kids_wf(id));
        let c = self.kids_of(id)[j];
        let here = self.preorder(c as int);
        let rest = self.preorder_from(id, j + 1);
        let t = self.kids_of(p)[m];
        let k = (here + rest).index_of(p as u32);
        assert((here + rest)[k] == p as u32);
        if k < here.len() {
            assert(here[k] == p as u32);
            self.preorder_closed(c as int, p, m);
            let q = here.index_of(t);
            assert((here + rest)[q] == t);
        } else {
            assert(rest[k - here.len()] == p as u32);
            self.preorder_from_closed(id, j + 1, p, m);
            let q = rest.index_of(t);
            assert((here + rest)[here.len() + q] == t);
        }
    }

    proof fn preorder_distinct(&self, id: int)
        requires
            self.wf(),
            self.has(id),
        ensures
            self.preorder(id).no_duplicates(),
        decreases self.size() - id, self.kids_of(id).len() + 1,
    {
        self.preorder_from_distinct(id, 0);
        self.preorder_from_sound(id, 0);
        let rest = self.preorder_from(id, 0);
        assert forall|k: int| 0 <= k < rest.len() implies rest[k] != id as u32 by {
            if rest[k] == id as u32 {
                assert(rest.contains(id as u32));
                let m = choose|m: int|
                    0 <= m < self.kids_of(id).len() && self.under(
                        id,
                        #[trigger] self.kids_of(id)[m] as int,
                    );
                assert(self.kids_wf(id));
                self.under_is_later(id, self.kids_of(id)[m] as int);
            }
        }
        assert forall|a: int, b: int|
            0 <= a < self.preorder(id).len() && 0 <= b < self.preorder(id).len() && a
                != b implies self.preorder(id)[a] != self.preorder(id)[b] by {
            if a > 0 {
                assert(self.preorder(id)[a] == rest[a - 1]);
            }
            if b > 0 {
                assert(self.preorder(id)[b] == rest[b - 1]);
            }
        }
    }

    proof fn preorder_from_distinct(&self, id: int, j: int)
        requires
            self.wf(),
            self.has(id),
            0 <= j <= self.kids_of(id).len(),
        ensures
            self.preorder_from(id, j).no_duplicates(),
        decreases self.size() - id, self.kids_of(id).len() - j,
    {
        let k = self.kids_of(id);
        if j < k.len() {
            assert(self.kids_wf(id));
            let c = k[j];
            self.preorder_distinct(c as int);
            self.preorder_sound(c as int);
            self.preorder_from_distinct(id, j + 1);
            self.preorder_from_sound(id, j + 1);
            let here = self.preorder(c as int);
            let rest = self.preorder_from(id, j + 1);
            assert forall|a: int, b: int| 0 <= a < here.len() && 0 <= b < rest.len() implies here[a]
                != rest[b] by {
                if here[a] == rest[b] {
                    let x = here[a];
                    assert(here.contains(x));
                    assert(rest.contains(x));
                    let m = choose|m: int|
                        j + 1 <= m < k.len() && self.under(x as int, #[trigger] k[m] as int);
                    self.siblings_disjoint(id, j, m, x as int);
                }
            }
            assert forall|a: int, b: int|
                0 <= a < (here + rest).len() && 0 <= b < (here + rest).len() && a
                    != b implies (here + rest)[a] != (here + rest)[b] by {
                if a < here.len() && b < here.len() {
                } else if a < here.len() {
                    assert((here + rest)[b] == rest[b - here.len()]);
                } else if b < here.len() {
                    assert((here + rest)[a] == rest[a - here.len()]);
                } else {
                    assert((here + rest)[a] == rest[a - here.len()]);
                    assert((here + rest)[b] == rest[b - here.len()]);
                }
            }
        }
    }

    /// A walk lists exactly the nodes that are the start or lie below it, each
    /// of them once.
    pub proof fn walk_is_the_subtree(&self, start: u32)
        requires
            self.wf(),
        ensures
            self.preorder(start as int).no_duplicates(),
            forall|x: u32|
                self.preorder(start as int).contains(x) <==> self.under(x as int, start as int),
    {
        if self.has(start as int) {
            self.preorder_distinct(start as int);
            self.preorder_sound(start as int);
            assert forall|x: u32|
                self.under(x as int, start as int) implies self.preorder(start as int).contains(
                x,
            ) by {
                self.preorder_complete(start as int, x as int);
            }
        } else {
            assert forall|x: u32| !self.under(x as int, start as int) by {
                if self.under(x as int, start as int) {
                    self.under_is_later(x as int, start as int);
                }
            }
        }
    }
}

} // verus!
