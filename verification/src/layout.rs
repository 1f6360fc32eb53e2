//! What the charts show, level by level: which nodes, in which colour family,
//! and how many rows or rings they need. Where a shape stands on the canvas is
//! the renderer's to compute.
use vstd::prelude::*;

use crate::rollup;
use crate::seqs;
use crate::tree::{Node, Tree};

verus! {

impl Tree {
    /// The node takes space.
    pub open spec fn sizeable(self) -> spec_fn(u32) -> bool {
        |id: u32| self.at(id as int).on_disk > 0
    }

    /// The children of a node that take space, largest first as stored.
    pub open spec fn sizeable_kids(&self, id: int) -> Seq<u32> {
        self.kids_of(id).filter(self.sizeable())
    }

    /// A chart can go on below the node: a folder that is not empty.
    pub open spec fn descends(&self, id: int) -> bool {
        self.at(id).dir && self.at(id).child_count > 0
    }

    // -----------------------------------------------------------------------
    // Rows of the flame chart
    // -----------------------------------------------------------------------

    /// Rows drawn below a node, at most `limit`: one for each level with a
    /// child that takes space, following folders that take space.
    pub open spec fn levels(&self, id: int, limit: nat) -> nat
        decreases limit, 0nat,
    {
        if limit == 0 || self.sizeable_kids(id).len() == 0 {
            0
        } else {
            1 + self.deepest(self.kids_of(id), (limit - 1) as nat)
        }
    }

    /// The most rows below one of the nodes.
    pub open spec fn deepest(&self, list: Seq<u32>, limit: nat) -> nat
        decreases limit, list.len(),
    {
        if list.len() == 0 {
            0
        } else {
            let rest = self.deepest(list.drop_last(), limit);
            let last = list.last() as int;
            let here = if self.at(last).dir && self.at(last).on_disk > 0 {
                self.levels(last, limit)
            } else {
                0
            };
            if here > rest {
                here
            } else {
                rest
            }
        }
    }

    // -----------------------------------------------------------------------
    // Rings of the mind map
    // -----------------------------------------------------------------------

    /// Rings that the map spreads over below a node, with `limit` levels
    /// available. A level with one child that takes space uses up a level but
    /// no ring; one with several uses up both.
    pub open spec fn rings(&self, id: int, limit: nat) -> nat
        decreases limit, 0nat,
    {
        let s = self.sizeable_kids(id);
        if s.len() == 0 || limit == 0 {
            0
        } else if s.len() == 1 {
            if self.descends(s[0] as int) {
                self.rings(s[0] as int, (limit - 1) as nat)
            } else {
                0
            }
        } else {
            1 + self.widest(s, (limit - 1) as nat)
        }
    }

    /// The most rings below one of the nodes.
    pub open spec fn widest(&self, list: Seq<u32>, limit: nat) -> nat
        decreases limit, list.len(),
    {
        if list.len() == 0 {
            0
        } else {
            let rest = self.widest(list.drop_last(), limit);
            let last = list.last() as int;
            let here = if self.descends(last) {
                self.rings(last, limit)
            } else {
                0
            };
            if here > rest {
                here
            } else {
                rest
            }
        }
    }

    // -----------------------------------------------------------------------
    // Branches
    // -----------------------------------------------------------------------

    /// Where the branches begin: the node reached by following single children
    /// that take space and can be followed.
    pub open spec fn branching(&self, id: int) -> int
        decreases self.size() - id,
    {
        let s = self.sizeable_kids(id);
        if s.len() == 1 && id < s[0] < self.size() && self.descends(s[0] as int) {
            self.branching(s[0] as int)
        } else {
            id
        }
    }

    /// Levels between a node and one above it.
    pub open spec fn steps_up(&self, id: int, top: int) -> nat
        decreases id,
    {
        if id == top || id <= 0 || self.at(id).parent >= id {
            0
        } else {
            1 + self.steps_up(self.at(id).parent as int, top)
        }
    }

    /// Bytes that the nodes take together.
    pub open spec fn weight(&self, list: Seq<u32>) -> nat
        decreases list.len(),
    {
        if list.len() == 0 {
            0
        } else {
            self.weight(list.drop_last()) + self.at(list.last() as int).on_disk as nat
        }
    }

    /// The node is drawn.
    pub open spec fn drawn(self) -> spec_fn(u32) -> bool {
        |id: u32| !self.at(id as int).removed && self.at(id as int).on_disk > 0
    }
}

/// The children of a node are nodes.
proof fn kids_are_nodes(t: Tree, id: int)
    requires
        t.wf(),
    ensures
        forall|k: int| 0 <= k < t.kids_of(id).len() ==> t.has(#[trigger] t.kids_of(id)[k] as int),
{
    if t.has(id) {
        assert(t.kids_wf(id));
    }
}

/// The children of a node that take space.
fn sized_children(tree: &Tree, node: u32) -> (r: Vec<u32>)
    requires
        tree.wf(),
    ensures
        r@ == tree.sizeable_kids(node as int),
        forall|k: int| 0 <= k < r@.len() ==> tree.has(#[trigger] r@[k] as int),
{
    let children = tree.children_sorted(node);
    let mut out: Vec<u32> = Vec::new();
    let mut i: usize = 0;
    let ghost p = tree.sizeable();
    proof {
        seqs::filter_nothing(p);
        kids_are_nodes(*tree, node as int);
        assert(children@.take(0) =~= Seq::empty());
    }
    while i < children.len()
        invariant
            i <= children.len(),
            tree.wf(),
            p == tree.sizeable(),
            children@ == tree.kids_of(node as int),
            forall|k: int| 0 <= k < children@.len() ==> tree.has(#[trigger] children@[k] as int),
            out@ == children@.take(i as int).filter(p),
            forall|k: int| 0 <= k < out@.len() ==> tree.has(#[trigger] out@[k] as int),
        decreases children.len() - i,
    {
        proof {
            seqs::filter_step(children@, i as int, p);
        }
        let id = children[i];
        match tree.node(id) {
            Some(c) => {
                if c.on_disk > 0 {
                    out.push(id);
                }
            },
            None => {},
        }
        i += 1;
    }
    assert(children@.take(i as int) =~= children@);
    out
}

/// Rows that the flame chart draws below a node, at most `limit`.
pub fn reachable_levels(tree: &Tree, node: u32, limit: u32) -> (r: u32)
    requires
        tree.wf(),
    ensures
        r == tree.levels(node as int, limit as nat),
        r <= limit,
    decreases limit,
{
    if limit == 0 {
        return 0;
    }
    let sized = sized_children(tree, node);
    if sized.len() == 0 {
        return 0;
    }
    let children = tree.children_sorted(node);
    let mut best: u32 = 0;
    let mut i: usize = 0;
    proof {
        kids_are_nodes(*tree, node as int);
        assert(tree.deepest(children@.take(0), (limit - 1) as nat) == 0);
    }
    while i < children.len()
        invariant
            i <= children.len(),
            limit > 0,
            tree.wf(),
            children@ == tree.kids_of(node as int),
            forall|k: int| 0 <= k < children@.len() ==> tree.has(#[trigger] children@[k] as int),
            best == tree.deepest(children@.take(i as int), (limit - 1) as nat),
            best <= limit - 1,
        decreases children.len() - i,
    {
        let id = children[i];
        assert(children@.take(i + 1).drop_last() =~= children@.take(i as int));
        assert(tree.has(children@[i as int] as int));
        match tree.node(id) {
            Some(c) => {
                if c.dir && c.on_disk > 0 {
                    let here = reachable_levels(tree, id, limit - 1);
                    if here > best {
                        best = here;
                    }
                }
            },
            None => {},
        }
        i += 1;
    }
    assert(children@.take(i as int) =~= children@);
    1 + best
}

/// Rings that the mind map spreads over below a node, with `limit` levels
/// available.
pub fn spread_rings(tree: &Tree, node: u32, limit: u32) -> (r: u32)
    requires
        tree.wf(),
    ensures
        r == tree.rings(node as int, limit as nat),
        r <= limit,
    decreases limit,
{
    let sized = sized_children(tree, node);
    if sized.len() == 0 || limit == 0 {
        return 0;
    }
    if sized.len() == 1 {
        let only = sized[0];
        assert(tree.has(sized@[0] as int));
        return match tree.node(only) {
            Some(c) => {
                if c.dir && c.child_count > 0 {
                    spread_rings(tree, only, limit - 1)
                } else {
                    0
                }
            },
            None => 0,
        };
    }
    let mut best: u32 = 0;
    let mut i: usize = 0;
    assert(tree.widest(sized@.take(0), (limit - 1) as nat) == 0);
    while i < sized.len()
        invariant
            i <= sized.len(),
            limit > 0,
            tree.wf(),
            forall|k: int| 0 <= k < sized@.len() ==> tree.has(#[trigger] sized@[k] as int),
            best == tree.widest(sized@.take(i as int), (limit - 1) as nat),
            best <= limit - 1,
        decreases sized.len() - i,
    {
        let id = sized[i];
        assert(sized@.take(i + 1).drop_last() =~= sized@.take(i as int));
        assert(tree.has(sized@[i as int] as int));
        match tree.node(id) {
            Some(c) => {
                if c.dir && c.child_count > 0 {
                    let here = spread_rings(tree, id, limit - 1);
                    if here > best {
                        best = here;
                    }
                }
            },
            None => {},
        }
        i += 1;
    }
    assert(sized@.take(i as int) =~= sized@);
    1 + best
}

/// Where the branches of a chart begin: single children that take space are
/// followed, as from a list of drives with one drive.
pub fn effective_branch_root(tree: &Tree, node: u32) -> (r: u32)
    requires
        tree.wf(),
    ensures
        r == tree.branching(node as int),
{
    let mut cur: u32 = node;
    let n: usize = tree.len();
    loop
        invariant
            tree.wf(),
            n == tree.size(),
            tree.branching(node as int) == tree.branching(cur as int),
            cur == node || cur < n,
        decreases n - cur,
    {
        let sized = sized_children(tree, cur);
        if sized.len() != 1 {
            return cur;
        }
        let next = sized[0];
        proof {
            assert(tree.has(sized@[0] as int));
            seqs::filter_members(tree.kids_of(cur as int), tree.sizeable());
            assert(sized@.contains(next));
            assert(tree.kids_of(cur as int).contains(next));
            assert(tree.kids_wf(cur as int));
        }
        match tree.node(next) {
            Some(c) => {
                if !(c.dir && c.child_count > 0) {
                    return cur;
                }
            },
            None => {
                return cur;
            },
        }
        cur = next;
    }
}

/// Levels between a node and one above it.
pub fn depth_below(tree: &Tree, node: u32, top: u32) -> (r: u32)
    requires
        tree.wf(),
    ensures
        tree.has(node as int) ==> r == tree.steps_up(node as int, top as int),
        !tree.has(node as int) ==> r == 0,
        r <= node,
{
    let mut cur: u32 = node;
    let mut steps: u32 = 0;
    while cur != top
        invariant
            tree.wf(),
            steps + cur <= node,
            cur == node || tree.has(cur as int),
            !tree.has(node as int) ==> steps == 0 && cur == node,
            tree.has(node as int) ==> steps + tree.steps_up(cur as int, top as int)
                == tree.steps_up(node as int, top as int),
        ensures
            steps <= node,
            tree.has(node as int) ==> steps == tree.steps_up(node as int, top as int),
            !tree.has(node as int) ==> steps == 0,
        decreases cur,
    {
        match tree.node(cur) {
            Some(c) => {
                assert(tree.parent_wf(cur as int));
                if cur == 0 || c.parent >= cur {
                    break;
                }
                cur = c.parent;
                steps = steps + 1;
            },
            None => {
                break;
            },
        }
    }
    steps
}

/// The colour family of a child: the children of the branch root have one each,
/// everything below inherits.
pub fn family_of(node: u32, branch_root: u32, slot: usize, inherited: usize) -> (r: usize)
    ensures
        r == (if node == branch_root {
            slot
        } else {
            inherited
        }),
{
    if node == branch_root {
        slot
    } else {
        inherited
    }
}

// ---------------------------------------------------------------------------
// One level of a chart
// ---------------------------------------------------------------------------

/// One node of a level.
#[derive(Clone, Copy, Debug, PartialEq, Eq, Structural)]
pub struct LevelNode {
    pub id: u32,
    /// Its position among all children.
    pub slot: usize,
    pub on_disk: u64,
    /// The level below it can be drawn, given the levels left.
    pub descends: bool,
}

/// What one level of a chart shows.
#[derive(Clone, Debug)]
pub struct Level {
    /// Bytes of all children together; each node's share is of this.
    pub total: u64,
    /// Exactly one child takes space, which then stands in its parent's place.
    pub collapsed: bool,
    /// The nodes that are drawn, largest first.
    pub nodes: Vec<LevelNode>,
}

/// The positions of the nodes that are drawn.
pub open spec fn drawn_slots(t: Tree, list: Seq<u32>) -> Seq<int>
    decreases list.len(),
{
    if list.len() == 0 {
        Seq::empty()
    } else {
        let rest = drawn_slots(t, list.drop_last());
        if t.drawn()(list.last()) {
            rest.push(list.len() - 1)
        } else {
            rest
        }
    }
}

/// The node of a level describes the child at a position.
pub open spec fn shows(n: LevelNode, t: Tree, list: Seq<u32>, slot: int, depth_left: nat) -> bool {
    let id = list[slot];
    &&& n.id == id
    &&& n.slot == slot
    &&& n.on_disk == t.at(id as int).on_disk
    &&& n.descends == (t.descends(id as int) && depth_left > 1)
}

/// The nodes describe the children at the positions, one for one.
pub open spec fn shows_all(
    nodes: Seq<LevelNode>,
    t: Tree,
    list: Seq<u32>,
    slots: Seq<int>,
    depth_left: nat,
) -> bool {
    nodes.len() == slots.len() && forall|k: int|
        0 <= k < nodes.len() ==> shows(#[trigger] nodes[k], t, list, slots[k], depth_left)
}

/// The level below a node, with `depth_left` levels left: nothing where no
/// level is left or the children take no space.
pub fn level_below(tree: &Tree, node: u32, depth_left: u32) -> (r: Level)
    requires
        tree.wf(),
    ensures
        ({
            let list = tree.kids_of(node as int);
            let total = rollup::capped(tree.weight(list) as int);
            &&& r.total == total
            &&& r.collapsed == (tree.sizeable_kids(node as int).len() == 1)
            &&& if depth_left == 0 || total == 0 {
                r.nodes@.len() == 0
            } else {
                shows_all(r.nodes@, *tree, list, drawn_slots(*tree, list), depth_left as nat)
            }
        }),
{
    let children = tree.children_sorted(node);
    let sized = sized_children(tree, node);
    let mut total: u64 = 0;
    let mut nodes: Vec<LevelNode> = Vec::new();
    let mut i: usize = 0;
    let ghost list = children@;
    proof {
        kids_are_nodes(*tree, node as int);
        assert(tree.weight(list.take(0)) == 0);
        assert(drawn_slots(*tree, list.take(0)) =~= Seq::empty());
    }
    while i < children.len()
        invariant
            i <= children.len(),
            tree.wf(),
            list == children@,
            list == tree.kids_of(node as int),
            forall|k: int| 0 <= k < list.len() ==> tree.has(#[trigger] list[k] as int),
            total == rollup::capped(tree.weight(list.take(i as int)) as int),
            depth_left == 0 ==> nodes@.len() == 0,
            depth_left > 0 ==> shows_all(
                nodes@,
                *tree,
                list,
                drawn_slots(*tree, list.take(i as int)),
                depth_left as nat,
            ),
        decreases children.len() - i,
    {
        let id = children[i];
        assert(tree.has(list[i as int] as int));
        assert(list.take(i + 1).drop_last() =~= list.take(i as int));
        assert(list.take(i + 1).last() == id);
        match tree.node(id) {
            Some(c) => {
                if total <= u64::MAX - c.on_disk {
                    total = total + c.on_disk;
                } else {
                    total = u64::MAX;
                }
                if depth_left > 0 && !c.removed && c.on_disk > 0 {
                    nodes.push(
                        LevelNode {
                            id,
                            slot: i,
                            on_disk: c.on_disk,
                            descends: c.dir && c.child_count > 0 && depth_left > 1,
                        },
                    );
                }
            },
            None => {},
        }
        i += 1;
    }
    assert(list.take(i as int) =~= list);
    if total == 0 {
        return Level { total, collapsed: sized.len() == 1, nodes: Vec::new() };
    }
    Level { total, collapsed: sized.len() == 1, nodes }
}

/// How one level of the mind map divides its rings.
#[derive(Clone, Copy, Debug, PartialEq, Eq, Structural)]
pub struct RingBudget {
    /// Rings that share the radius at this level, at least one.
    pub here: u32,
    /// Rings left for the levels below.
    pub below: u32,
}

/// A level that spreads uses up a ring; one that stands in its parent's place
/// hands the rings on.
pub fn ring_budget(collapsed: bool, rings_left: u32) -> (r: RingBudget)
    ensures
        r.here == (if rings_left == 0 {
            1
        } else {
            rings_left
        }),
        r.below == (if collapsed {
            rings_left as int
        } else if rings_left == 0 {
            0
        } else {
            rings_left - 1
        }),
{
    RingBudget {
        here: if rings_left == 0 {
            1
        } else {
            rings_left
        },
        below: if collapsed || rings_left == 0 {
            rings_left
        } else {
            rings_left - 1
        },
    }
}

/// Whether a dot is solid: it stands on the chain to the branches or is one of
/// them. Dots below are translucent.
pub fn is_solid(depth_here: u32, branch_level: u32) -> (r: bool)
    ensures
        r == (depth_here <= branch_level),
{
    depth_here <= branch_level
}

// ---------------------------------------------------------------------------
// Laws
// ---------------------------------------------------------------------------

/// No ring below one of the nodes is above the most.
proof fn widest_bounds(t: Tree, list: Seq<u32>, limit: nat, k: int)
    requires
        0 <= k < list.len(),
        t.descends(list[k] as int),
    ensures
        t.rings(list[k] as int, limit) <= t.widest(list, limit),
    decreases list.len(),
{
    if k < list.len() - 1 {
        widest_bounds(t, list.drop_last(), limit, k);
    }
}

/// A map that is given the rings it spreads over never runs out of them: a
/// level that spreads has one, and what is handed down suffices for every child
/// that is followed.
pub proof fn rings_suffice(t: Tree, id: int, limit: nat, rings_left: nat, k: int)
    requires
        limit > 0,
        rings_left >= t.rings(id, limit),
        0 <= k < t.sizeable_kids(id).len(),
        t.descends(t.sizeable_kids(id)[k] as int),
    ensures
        ({
            let s = t.sizeable_kids(id);
            let below = if s.len() == 1 {
                rings_left as int
            } else {
                rings_left - 1
            };
            &&& s.len() > 1 ==> rings_left >= 1
            &&& below >= t.rings(s[k] as int, (limit - 1) as nat)
        }),
{
    let s = t.sizeable_kids(id);
    if s.len() > 1 {
        widest_bounds(t, s, (limit - 1) as nat, k);
    }
}

/// The branches begin at the node itself or below it.
pub proof fn branches_begin_below(t: Tree, id: int)
    requires
        t.wf(),
        t.has(id),
    ensures
        t.has(t.branching(id)),
        t.under(t.branching(id), id),
    decreases t.size() - id,
{
    let s = t.sizeable_kids(id);
    if s.len() == 1 && id < s[0] < t.size() && t.descends(s[0] as int) {
        let next = s[0] as int;
        branches_begin_below(t, next);
        seqs::filter_members(t.kids_of(id), t.sizeable());
        assert(s.contains(s[0]));
        assert(t.kids_of(id).contains(s[0]));
        assert(t.kids_wf(id));
        t.under_parent(t.branching(id), next);
    }
}

// ---------------------------------------------------------------------------
// Colours
// ---------------------------------------------------------------------------

/// What the colours of a chart tell.
#[derive(Clone, Copy, Debug, PartialEq, Eq, Structural)]
pub enum ColorMode {
    /// The branch that a node belongs to.
    ByFolder,
    /// The node's own category.
    ByType,
    /// The last change; of a folder the newest below it.
    ByAge,
}

/// When a node last changed (0 unknown); of a folder the newest change below it.
pub open spec fn changed(t: Tree, id: int) -> int {
    if t.at(id).dir {
        t.extra(id).max_descendant_modified as int
    } else {
        t.at(id).modified as int
    }
}

/// The colour of an age, from under a month over half a year, one and two years
/// to older; what has no time counts as old.
pub open spec fn age_color(at: int, now: int) -> u32 {
    let days = (now - at) / 86400;
    if at <= 0 || days >= 730 {
        0x6B7280
    } else if days >= 365 {
        0x60A5FA
    } else if days >= 180 {
        0x34D399
    } else if days >= 30 {
        0xFBBF24
    } else {
        0xF87171
    }
}

/// How many shades one colour has.
pub const SHADES: u32 = 8;

/// The shade of a node: it varies with the depth and with the place among its
/// siblings.
pub open spec fn shade_of(depth: int, sibling: int) -> int {
    (depth % 4) * 2 + sibling % 2
}

/// One channel, lightened by a shade.
#[verifier::opaque]
pub open spec fn lightened(channel: int, shade: int) -> int {
    channel + (255 - channel) * shade / 16
}

/// The red, green or blue of a colour, by its place from the right.
pub open spec fn channel(color: u32, place: int) -> int {
    if place == 0 {
        (color % 0x100) as int
    } else if place == 1 {
        (color / 0x100 % 0x100) as int
    } else {
        (color / 0x10000 % 0x100) as int
    }
}

/// A colour, lightened by a shade.
pub open spec fn shaded(color: u32, shade: int) -> u32 {
    (lightened(channel(color, 2), shade) * 0x10000 + lightened(channel(color, 1), shade) * 0x100
        + lightened(channel(color, 0), shade)) as u32
}

proof fn lightened_fits(channel: int, shade: int)
    requires
        0 <= channel < 256,
        0 <= shade < SHADES,
    ensures
        channel <= lightened(channel, shade) < 256,
{
    reveal(lightened);
    let room = 255 - channel;
    assert(0 <= room * shade <= room * 16) by (nonlinear_arith)
        requires
            0 <= room,
            0 <= shade < 8,
    ;
}

/// One channel, lightened by a shade.
fn lighten(channel: u32, shade: u32) -> (r: u32)
    requires
        channel < 256,
        shade < SHADES,
    ensures
        r == lightened(channel as int, shade as int),
        r < 256,
{
    proof {
        reveal(lightened);
        lightened_fits(channel as int, shade as int);
        assert(0 <= (255 - channel) * shade <= 255 * 8) by (nonlinear_arith)
            requires
                channel < 256,
                shade < 8,
        ;
    }
    channel + (255 - channel) * shade / 16
}

/// A colour, lightened by a shade.
fn shade_color(color: u32, shade: u32) -> (r: u32)
    requires
        shade < SHADES,
    ensures
        r == shaded(color, shade as int),
{
    let red: u32 = lighten(color / 0x10000 % 0x100, shade);
    let green: u32 = lighten(color / 0x100 % 0x100, shade);
    let blue: u32 = lighten(color % 0x100, shade);
    red * 0x10000 + green * 0x100 + blue
}

/// The shade of a branch's colour, by depth and place among the siblings, or the
/// colour of an age.
pub open spec fn node_shade(
    t: Tree,
    id: int,
    mode: ColorMode,
    now: int,
    family: int,
    depth: int,
    sibling: int,
) -> u32 {
    match mode {
        ColorMode::ByFolder => shaded(
            t.palette.styles@[family % 9].color,
            shade_of(depth, sibling),
        ),
        ColorMode::ByType => t.palette.color_of(t.at(id).kind),
        ColorMode::ByAge => age_color(changed(t, id), now),
    }
}

/// The colour of a node by its mode; `family` is the branch it belongs to, and
/// the shade of the branch's colour varies with `depth` and `sibling`.
pub fn node_color(
    tree: &Tree,
    id: u32,
    mode: ColorMode,
    now: i64,
    family: usize,
    depth: u16,
    sibling: usize,
) -> (r: u32)
    requires
        tree.wf(),
        tree.has(id as int),
    ensures
        r == node_shade(
            *tree,
            id as int,
            mode,
            now as int,
            family as int,
            depth as int,
            sibling as int,
        ),
{
    match mode {
        ColorMode::ByFolder => {
            let shade: u32 = (depth % 4) as u32 * 2 + (sibling % 2) as u32;
            shade_color(tree.palette.styles[family % 9].color, shade)
        },
        ColorMode::ByType => tree.palette.color(tree.arena[id as usize].kind),
        ColorMode::ByAge => {
            let n = tree.arena[id as usize];
            let at: i64 = if n.dir {
                tree.dir_extras[n.dir_index as usize].max_descendant_modified
            } else {
                n.modified
            };
            if at <= 0 {
                return 0x6B7280;
            }
            let seconds: i128 = now as i128 - at as i128;
            // Two years, one, half a one and a month, in seconds.
            if seconds >= 63072000 {
                0x6B7280
            } else if seconds >= 31536000 {
                0x60A5FA
            } else if seconds >= 15552000 {
                0x34D399
            } else if seconds >= 2592000 {
                0xFBBF24
            } else {
                0xF87171
            }
        },
    }
}

/// The colour of a cell: by folder that of its branch at its depth and place, by
/// type that of its own category, by age that of its last change whatever its
/// branch and depth. Depths count in 16 bits.
pub open spec fn cell_color(
    t: Tree,
    id: int,
    mode: ColorMode,
    now: int,
    family: int,
    depth: int,
    sibling: int,
) -> u32 {
    match mode {
        ColorMode::ByFolder => node_shade(t, id, mode, now, family, depth % 0x10000, sibling),
        ColorMode::ByType => t.palette.color_of(t.at(id).kind),
        ColorMode::ByAge => node_shade(t, id, mode, now, 0, 0, sibling),
    }
}

/// The colour of a cell of a chart.
pub fn color_of_cell(
    tree: &Tree,
    id: u32,
    mode: ColorMode,
    now: i64,
    family: usize,
    depth: u32,
    sibling: usize,
) -> (r: u32)
    requires
        tree.wf(),
        tree.has(id as int),
    ensures
        r == cell_color(
            *tree,
            id as int,
            mode,
            now as int,
            family as int,
            depth as int,
            sibling as int,
        ),
{
    match mode {
        ColorMode::ByFolder => node_color(
            tree,
            id,
            mode,
            now,
            family,
            (depth % 0x10000) as u16,
            sibling,
        ),
        ColorMode::ByType => tree.palette.color(tree.arena[id as usize].kind),
        ColorMode::ByAge => node_color(tree, id, mode, now, 0, 0, sibling),
    }
}

/// The channels of a packed colour are those that were packed.
proof fn packed_channels(red: int, green: int, blue: int)
    requires
        0 <= red < 256,
        0 <= green < 256,
        0 <= blue < 256,
    ensures
        ({
            let c = (red * 0x10000 + green * 0x100 + blue) as u32;
            channel(c, 0) == blue && channel(c, 1) == green && channel(c, 2) == red
        }),
{
    let c = red * 0x10000 + green * 0x100 + blue;
    assert(c as u32 == c);
    assert(c / 0x100 == red * 0x100 + green);
    assert(c / 0x10000 == red);
}

proof fn shaded_channels(color: u32, shade: int)
    requires
        0 <= shade < SHADES,
    ensures
        channel(shaded(color, shade), 0) == lightened(channel(color, 0), shade),
        channel(shaded(color, shade), 1) == lightened(channel(color, 1), shade),
        channel(shaded(color, shade), 2) == lightened(channel(color, 2), shade),
{
    let red = channel(color, 2);
    let green = channel(color, 1);
    let blue = channel(color, 0);
    lightened_fits(red, shade);
    lightened_fits(green, shade);
    lightened_fits(blue, shade);
    packed_channels(lightened(red, shade), lightened(green, shade), lightened(blue, shade));
}

/// The shade varies with the depth and with the place among the siblings: cells
/// of one branch whose depths differ by one or whose places do have different
/// colours, wherever a channel of the branch's colour leaves room to lighten.
pub proof fn shades_vary(color: u32, p: int, depth: int, sibling: int)
    requires
        0 <= p < 3,
        channel(color, p) <= 239,
        0 <= depth,
        0 <= sibling,
    ensures
        shaded(color, shade_of(depth, sibling)) != shaded(color, shade_of(depth + 1, sibling)),
        shaded(color, shade_of(depth, sibling)) != shaded(color, shade_of(depth, sibling + 1)),
{
    let a = shade_of(depth, sibling);
    let b = shade_of(depth + 1, sibling);
    let c = shade_of(depth, sibling + 1);
    shaded_channels(color, a);
    shaded_channels(color, b);
    shaded_channels(color, c);
    shades_differ(channel(color, p), a, b);
    shades_differ(channel(color, p), a, c);
}

proof fn shades_differ(channel: int, a: int, b: int)
    requires
        0 <= channel <= 239,
        0 <= a < SHADES,
        0 <= b < SHADES,
        a != b,
    ensures
        lightened(channel, a) != lightened(channel, b),
{
    reveal(lightened);
    let room = 255 - channel;
    assert((a < b ==> room * b >= room * a + 16) && (b < a ==> room * a >= room * b + 16))
        by (nonlinear_arith)
        requires
            room >= 16,
            0 <= a,
            0 <= b,
            a != b,
    ;
}

// ---------------------------------------------------------------------------
// What the charts show
// ---------------------------------------------------------------------------

proof fn deepest_holds(t: Tree, list: Seq<u32>, limit: nat)
    ensures
        forall|k: int|
            0 <= k < list.len() && t.at(#[trigger] list[k] as int).dir && t.at(
                list[k] as int,
            ).on_disk > 0 ==> t.deepest(list, limit) >= t.levels(list[k] as int, limit),
        t.deepest(list, limit) > 0 ==> exists|k: int|
            0 <= k < list.len() && t.at(#[trigger] list[k] as int).dir && t.at(
                list[k] as int,
            ).on_disk > 0 && t.deepest(list, limit) == t.levels(list[k] as int, limit),
    decreases list.len(),
{
    if list.len() > 0 {
        let less = list.drop_last();
        deepest_holds(t, less, limit);
        let n = list.len() - 1;
        assert(list[n] == list.last());
        assert forall|k: int|
            0 <= k < list.len() && t.at(#[trigger] list[k] as int).dir && t.at(
                list[k] as int,
            ).on_disk > 0 implies t.deepest(list, limit) >= t.levels(list[k] as int, limit) by {
            if k < n {
                assert(less[k] == list[k]);
            }
        }
        if t.deepest(list, limit) > 0 && t.deepest(list, limit) == t.deepest(less, limit) {
            let k = choose|k: int|
                0 <= k < less.len() && t.at(#[trigger] less[k] as int).dir && t.at(
                    less[k] as int,
                ).on_disk > 0 && t.deepest(less, limit) == t.levels(less[k] as int, limit);
            assert(list[k] == less[k]);
        }
    }
}

/// The rows below a node: none where no row is left or no child takes space;
/// else one more than the deepest of the folders in it that take space has, and
/// one where there is none of them or they have no rows.
pub proof fn rows_follow_the_deepest_folder(tree: &Tree, node: u32, limit: u32, r: u32)
    requires
        tree.wf(),
        tree.has(node as int),
        call_ensures(reachable_levels, (tree, node, limit), r),
    ensures
        ({
            let kids = tree.kids@[node as int]@;
            let none = forall|k: int|
                0 <= k < kids.len() ==> tree.arena@[#[trigger] kids[k] as int].on_disk == 0;
            &&& limit == 0 || none ==> r == 0
            &&& limit > 0 && !none ==> {
                &&& 1 <= r <= limit
                &&& forall|k: int, x: u32|
                    0 <= k < kids.len() && tree.arena@[#[trigger] kids[k] as int].dir
                        && tree.arena@[kids[k] as int].on_disk > 0 && #[trigger] call_ensures(
                        reachable_levels,
                        (tree, kids[k], (limit - 1) as u32),
                        x,
                    ) ==> r >= x + 1
                &&& r > 1 ==> exists|k: int|
                    0 <= k < kids.len() && tree.arena@[#[trigger] kids[k] as int].dir
                        && tree.arena@[kids[k] as int].on_disk > 0 && r - 1 == tree.levels(
                        kids[k] as int,
                        (limit - 1) as nat,
                    )
            }
        }),
{
    let t = *tree;
    let kids = t.kids_of(node as int);
    let s = t.sizeable_kids(node as int);
    seqs::filter_members(kids, t.sizeable());
    if s.len() > 0 {
        assert(s.contains(s[0]));
        assert(kids.contains(s[0]));
        let k = kids.index_of(s[0]);
        assert(kids[k] == s[0]);
        assert(t.at(kids[k] as int).on_disk > 0);
    } else {
        assert forall|k: int| 0 <= k < kids.len() implies tree.arena@[
            #[trigger] kids[k] as int
        ].on_disk == 0 by {
            assert(kids.contains(kids[k]));
            assert(!s.contains(kids[k]));
        }
    }
    if limit > 0 && s.len() > 0 {
        deepest_holds(t, kids, (limit - 1) as nat);
    }
}

proof fn widest_holds(t: Tree, list: Seq<u32>, limit: nat)
    ensures
        t.widest(list, limit) > 0 ==> exists|k: int|
            0 <= k < list.len() && t.descends(#[trigger] list[k] as int) && t.widest(list, limit)
                == t.rings(list[k] as int, limit),
    decreases list.len(),
{
    if list.len() > 0 {
        let less = list.drop_last();
        widest_holds(t, less, limit);
        let n = list.len() - 1;
        assert(list[n] == list.last());
        if t.widest(list, limit) > 0 && t.widest(list, limit) == t.widest(less, limit) {
            let k = choose|k: int|
                0 <= k < less.len() && t.descends(#[trigger] less[k] as int) && t.widest(
                    less,
                    limit,
                ) == t.rings(less[k] as int, limit);
            assert(list[k] == less[k]);
        }
    }
}

/// The rings below a node. A level on which two children take space uses one and
/// adds the most that a folder with children among them needs; a level on which
/// one does uses none. There are none where no level is left.
pub proof fn rings_are_used_where_a_level_spreads(
    tree: &Tree,
    node: u32,
    limit: u32,
    r: u32,
    a: int,
)
    requires
        tree.wf(),
        tree.has(node as int),
        call_ensures(spread_rings, (tree, node, limit), r),
        0 <= a < tree.kids@[node as int]@.len(),
        tree.arena@[tree.kids@[node as int]@[a] as int].on_disk > 0,
    ensures
        ({
            let kids = tree.kids@[node as int]@;
            let c = tree.arena@[kids[a] as int];
            let only = forall|k: int|
                0 <= k < kids.len() && k != a ==> tree.arena@[#[trigger] kids[k] as int].on_disk
                    == 0;
            &&& limit == 0 ==> r == 0
            &&& limit > 0 && only && !(c.dir && c.child_count > 0) ==> r == 0
            &&& limit > 0 && only && c.dir && c.child_count > 0 ==> forall|x: u32| #[trigger]
                call_ensures(spread_rings, (tree, kids[a], (limit - 1) as u32), x) ==> r == x
            &&& limit > 0 && !only ==> {
                &&& r >= 1
                &&& c.dir && c.child_count > 0 ==> forall|x: u32| #[trigger]
                    call_ensures(spread_rings, (tree, kids[a], (limit - 1) as u32), x) ==> r >= x
                        + 1
                &&& r > 1 ==> exists|k: int|
                    0 <= k < kids.len() && tree.arena@[#[trigger] kids[k] as int].on_disk > 0
                        && tree.arena@[kids[k] as int].dir && tree.arena@[kids[k] as int].child_count
                        > 0 && r - 1 == tree.rings(kids[k] as int, (limit - 1) as nat)
            }
        }),
{
    let t = *tree;
    let kids = t.kids_of(node as int);
    let s = t.sizeable_kids(node as int);
    let at = seqs::filter_places(kids, t.sizeable());
    assert(t.sizeable()(kids[a]));
    assert(at.contains(a));
    let q = at.index_of(a);
    assert(at[q] == a);
    assert(s[q] == kids[a]);
    let only = forall|k: int|
        0 <= k < kids.len() && k != a ==> tree.arena@[#[trigger] kids[k] as int].on_disk == 0;
    if only && s.len() > 1 {
        let p: int = if q == 0 {
            1
        } else {
            0
        };
        assert(at[p] != at[q]) by {
            if p < q {
                assert(at[p] < at[q]);
            } else {
                assert(at[q] < at[p]);
            }
        }
        assert(t.at(kids[at[p]] as int).on_disk > 0);
    }
    if !only {
        let k = choose|k: int|
            0 <= k < kids.len() && k != a && tree.arena@[#[trigger] kids[k] as int].on_disk != 0;
        assert(t.sizeable()(kids[k]));
        assert(at.contains(k));
        let p = at.index_of(k);
        assert(at[p] == k);
        assert(s.len() > 1);
        if limit > 0 {
            widest_holds(t, s, (limit - 1) as nat);
            if t.descends(s[q] as int) {
                widest_bounds(t, s, (limit - 1) as nat, q);
            }
            if r > 1 {
                let m = choose|m: int|
                    0 <= m < s.len() && t.descends(#[trigger] s[m] as int) && t.widest(
                        s,
                        (limit - 1) as nat,
                    ) == t.rings(s[m] as int, (limit - 1) as nat);
                assert(kids[at[m]] == s[m]);
                assert(t.at(kids[at[m]] as int).on_disk > 0);
            }
        }
    }
}

/// The branches begin where the way down first forks or ends: a single child that
/// takes space and can be followed is followed, and nothing else is.
pub proof fn a_single_child_is_followed(tree: &Tree, node: u32, r: u32, a: int, x: u32)
    requires
        tree.wf(),
        tree.has(node as int),
        call_ensures(effective_branch_root, (tree, node), r),
        0 <= a < tree.kids@[node as int]@.len(),
        tree.arena@[tree.kids@[node as int]@[a] as int].on_disk > 0,
        call_ensures(effective_branch_root, (tree, tree.kids@[node as int]@[a]), x),
    ensures
        ({
            let kids = tree.kids@[node as int]@;
            let c = tree.arena@[kids[a] as int];
            let only = forall|k: int|
                0 <= k < kids.len() && k != a ==> tree.arena@[#[trigger] kids[k] as int].on_disk
                    == 0;
            &&& only && c.dir && c.child_count > 0 ==> r == x
            &&& !(only && c.dir && c.child_count > 0) ==> r == node
        }),
{
    let t = *tree;
    let kids = t.kids_of(node as int);
    let s = t.sizeable_kids(node as int);
    let at = seqs::filter_places(kids, t.sizeable());
    assert(t.sizeable()(kids[a]));
    assert(at.contains(a));
    let q = at.index_of(a);
    assert(at[q] == a);
    assert(s[q] == kids[a]);
    assert(t.kids_wf(node as int));
    let child = t.kids_of(node as int)[a];
    assert(node < child < t.size());
    let only = forall|k: int|
        0 <= k < kids.len() && k != a ==> tree.arena@[#[trigger] kids[k] as int].on_disk == 0;
    if only && s.len() > 1 {
        let p: int = if q == 0 {
            1
        } else {
            0
        };
        assert(at[p] != at[q]) by {
            if p < q {
                assert(at[p] < at[q]);
            } else {
                assert(at[q] < at[p]);
            }
        }
        assert(t.at(kids[at[p]] as int).on_disk > 0);
    }
    if !only {
        let k = choose|k: int|
            0 <= k < kids.len() && k != a && tree.arena@[#[trigger] kids[k] as int].on_disk != 0;
        assert(t.sizeable()(kids[k]));
        assert(at.contains(k));
        let p = at.index_of(k);
        assert(at[p] == k);
        assert(s.len() > 1);
    }
}

/// A node is no level below itself, and one level further below any other than
/// its parent is; the scan root is below nothing.
pub proof fn depth_counts_the_parents(tree: &Tree, node: u32, top: u32, r: u32, up: u32)
    requires
        tree.wf(),
        0 < node < tree.arena@.len(),
        call_ensures(depth_below, (tree, node, top), r),
        call_ensures(depth_below, (tree, tree.arena@[node as int].parent, top), up),
    ensures
        node == top ==> r == 0,
        node != top ==> r == up + 1,
        tree.arena@[node as int].parent == 0 ==> up == 0,
{
    assert(tree.parent_wf(node as int));
}

proof fn slots_hold(t: Tree, list: Seq<u32>)
    ensures
        forall|a: int, b: int|
            0 <= a < b < drawn_slots(t, list).len() ==> #[trigger] drawn_slots(t, list)[a]
                < #[trigger] drawn_slots(t, list)[b],
        forall|k: int|
            0 <= k < drawn_slots(t, list).len() ==> 0 <= #[trigger] drawn_slots(t, list)[k]
                < list.len(),
        forall|i: int|
            0 <= i < list.len() ==> (drawn_slots(t, list).contains(i) <==> !t.at(
                #[trigger] list[i] as int,
            ).removed && t.at(list[i] as int).on_disk > 0),
    decreases list.len(),
{
    if list.len() > 0 {
        let less = list.drop_last();
        slots_hold(t, less);
        let rest = drawn_slots(t, less);
        let at = drawn_slots(t, list);
        let n = list.len() - 1;
        assert(list[n] == list.last());
        assert forall|k: int| 0 <= k < at.len() implies 0 <= #[trigger] at[k] < list.len() by {
            if k < rest.len() {
                assert(at[k] == rest[k]);
            }
        }
        assert forall|a: int, b: int| 0 <= a < b < at.len() implies #[trigger] at[a]
            < #[trigger] at[b] by {
            assert(at[a] == rest[a]);
            if b < rest.len() {
                assert(at[b] == rest[b]);
            }
        }
        assert forall|i: int| 0 <= i < list.len() implies (at.contains(i) <==> !t.at(
            #[trigger] list[i] as int,
        ).removed && t.at(list[i] as int).on_disk > 0) by {
            if i < n {
                assert(less[i] == list[i]);
                if rest.contains(i) {
                    let q = rest.index_of(i);
                    assert(at[q] == i);
                }
                if at.contains(i) {
                    let q = at.index_of(i);
                    assert(at[q] == i);
                    assert(q < rest.len());
                    assert(rest[q] == i);
                }
            } else {
                if at.len() > rest.len() {
                    assert(at[rest.len() as int] == i);
                }
                if at.contains(i) {
                    let q = at.index_of(i);
                    assert(at[q] == i);
                    if q < rest.len() {
                        assert(rest[q] == i);
                    }
                }
            }
        }
    }
}

proof fn weight_is_the_sum(t: Tree, list: Seq<u32>, p: spec_fn(Node) -> bool)
    requires
        forall|n: Node| #[trigger] p(n),
    ensures
        t.weight(list) == crate::age::bytes_where(t, list, p),
        t.weight(list) == 0 ==> forall|k: int|
            0 <= k < list.len() ==> t.at(#[trigger] list[k] as int).on_disk == 0,
    decreases list.len(),
{
    if list.len() > 0 {
        let less = list.drop_last();
        weight_is_the_sum(t, less, p);
        assert(p(t.at(list.last() as int)));
        assert(list[list.len() - 1] == list.last());
        if t.weight(list) == 0 {
            assert forall|k: int| 0 <= k < list.len() implies t.at(
                #[trigger] list[k] as int,
            ).on_disk == 0 by {
                if k < less.len() {
                    assert(less[k] == list[k]);
                }
            }
        }
    }
}

/// A level collapses where exactly one child takes space: where child `a` does,
/// exactly if no other does; and not where none does.
pub proof fn a_level_collapses_on_a_single_child(
    tree: &Tree,
    node: u32,
    depth_left: u32,
    r: Level,
    a: int,
)
    requires
        tree.wf(),
        tree.has(node as int),
        call_ensures(level_below, (tree, node, depth_left), r),
    ensures
        ({
            let kids = tree.kids@[node as int]@;
            &&& 0 <= a < kids.len() && tree.arena@[kids[a] as int].on_disk > 0 ==> (r.collapsed
                <==> forall|k: int|
                0 <= k < kids.len() && k != a ==> tree.arena@[#[trigger] kids[k] as int].on_disk
                    == 0)
            &&& (forall|k: int|
                0 <= k < kids.len() ==> tree.arena@[#[trigger] kids[k] as int].on_disk == 0)
                ==> !r.collapsed
        }),
{
    let t = *tree;
    let kids = t.kids_of(node as int);
    let s = t.sizeable_kids(node as int);
    let at = seqs::filter_places(kids, t.sizeable());
    if 0 <= a < kids.len() && t.at(kids[a] as int).on_disk > 0 {
        assert(t.sizeable()(kids[a]));
        assert(at.contains(a));
        let q = at.index_of(a);
        assert(at[q] == a);
        let only = forall|k: int|
            0 <= k < kids.len() && k != a ==> tree.arena@[#[trigger] kids[k] as int].on_disk == 0;
        if only && s.len() > 1 {
            let p: int = if q == 0 {
                1
            } else {
                0
            };
            assert(at[p] != at[q]) by {
                if p < q {
                    assert(at[p] < at[q]);
                } else {
                    assert(at[q] < at[p]);
                }
            }
            assert(t.at(kids[at[p]] as int).on_disk > 0);
        }
        if !only {
            let k = choose|k: int|
                0 <= k < kids.len() && k != a && tree.arena@[#[trigger] kids[k] as int].on_disk
                    != 0;
            assert(t.sizeable()(kids[k]));
            assert(at.contains(k));
            let p = at.index_of(k);
            assert(at[p] == k);
            assert(s.len() > 1);
        }
    }
    if forall|k: int|
        0 <= k < kids.len() ==> tree.arena@[#[trigger] kids[k] as int].on_disk == 0 {
        if s.len() > 0 {
            assert(t.at(kids[at[0]] as int).on_disk > 0);
        }
    }
}

/// A level shows the live children that take space in child order, unless no
/// level is left, and its total is the bytes of all children. `at` gives the
/// places of what is drawn.
pub proof fn a_level_draws_what_takes_space(
    tree: &Tree,
    node: u32,
    depth_left: u32,
    r: Level,
) -> (at: Seq<int>)
    requires
        tree.wf(),
        tree.has(node as int),
        call_ensures(level_below, (tree, node, depth_left), r),
    ensures
        ({
            let kids = tree.kids@[node as int]@;
            let sum = crate::age::bytes_where(*tree, kids, |n: Node| true);
            &&& sum <= u64::MAX ==> r.total == sum
            &&& sum > u64::MAX ==> r.total == u64::MAX
            &&& depth_left == 0 ==> r.nodes@.len() == 0
            &&& depth_left > 0 ==> {
                &&& at.len() == r.nodes@.len()
                &&& forall|a: int, b: int|
                    0 <= a < b < at.len() ==> #[trigger] at[a] < #[trigger] at[b]
                &&& forall|k: int|
                    0 <= k < at.len() ==> {
                        let n = tree.arena@[kids[#[trigger] at[k]] as int];
                        &&& 0 <= at[k] < kids.len()
                        &&& r.nodes@[k].id == kids[at[k]]
                        &&& r.nodes@[k].slot == at[k]
                        &&& r.nodes@[k].on_disk == n.on_disk
                        &&& r.nodes@[k].descends <==> n.dir && n.child_count > 0 && depth_left > 1
                    }
                &&& forall|i: int|
                    0 <= i < kids.len() ==> (at.contains(i) <==> !tree.arena@[
                        #[trigger] kids[i] as int
                    ].removed && tree.arena@[kids[i] as int].on_disk > 0)
            }
        }),
{
    let t = *tree;
    let kids = t.kids_of(node as int);
    weight_is_the_sum(t, kids, |n: Node| true);
    slots_hold(t, kids);
    if depth_left > 0 && r.total > 0 {
        drawn_slots(t, kids)
    } else {
        if depth_left > 0 {
            assert(t.weight(kids) == 0);
            let at = drawn_slots(t, kids);
            if at.len() > 0 {
                assert(at.contains(at[0]));
                assert(t.at(kids[at[0]] as int).on_disk > 0);
            }
            assert(at =~= Seq::empty());
        }
        drawn_slots(t, kids)
    }
}

/// The colour of a node. By type it is that of its category. By age it goes by
/// the seconds since its last change, of a folder since the last below it: from
/// 2592000, 15552000, 31536000 and 63072000 on another colour each, and the last
/// also where no time is known. By folder each channel of the colour of its
/// branch goes part of the way to white, by as many sixteenths as twice the depth
/// (up to three, then anew) and the parity of the place among the siblings make.
pub proof fn colours_tell_type_age_or_branch(
    tree: &Tree,
    id: u32,
    mode: ColorMode,
    now: i64,
    family: usize,
    depth: u16,
    sibling: usize,
    r: u32,
)
    requires
        tree.wf(),
        tree.has(id as int),
        call_ensures(node_color, (tree, id, mode, now, family, depth, sibling), r),
    ensures
        ({
            let n = tree.arena@[id as int];
            let at = if n.dir {
                tree.dir_extras@[n.dir_index as int].max_descendant_modified
            } else {
                n.modified
            };
            let age = now - at;
            let base = tree.palette.styles@[family as int % 9].color as int;
            let part = (depth as int % 4) * 2 + sibling as int % 2;
            &&& mode is ByType ==> r == tree.palette.styles@[n.kind.index()].color
            &&& mode is ByAge && (at <= 0 || age >= 63072000) ==> r == 0x6B7280
            &&& mode is ByAge && at > 0 && 31536000 <= age < 63072000 ==> r == 0x60A5FA
            &&& mode is ByAge && at > 0 && 15552000 <= age < 31536000 ==> r == 0x34D399
            &&& mode is ByAge && at > 0 && 2592000 <= age < 15552000 ==> r == 0xFBBF24
            &&& mode is ByAge && at > 0 && age < 2592000 ==> r == 0xF87171
            &&& mode is ByFolder ==> {
                &&& r as int % 256 == base % 256 + (255 - base % 256) * part / 16
                &&& r as int / 256 % 256 == base / 256 % 256 + (255 - base / 256 % 256) * part / 16
                &&& r as int / 65536 % 256 == base / 65536 % 256 + (255 - base / 65536 % 256) * part
                    / 16
            }
        }),
{
    if mode is ByFolder {
        let base = tree.palette.styles@[family as int % 9].color;
        let part = shade_of(depth as int, sibling as int);
        reveal(lightened);
        shaded_channels(base, part);
    }
}

/// The colour of a cell is that of its node, by folder with its depth in 16 bits.
pub proof fn a_cell_has_the_colour_of_its_node(
    tree: &Tree,
    id: u32,
    mode: ColorMode,
    now: i64,
    family: usize,
    depth: u16,
    sibling: usize,
    r: u32,
    n: u32,
)
    requires
        tree.wf(),
        tree.has(id as int),
        call_ensures(color_of_cell, (tree, id, mode, now, family, depth as u32, sibling), r),
        call_ensures(node_color, (tree, id, mode, now, family, depth, sibling), n),
    ensures
        r == n,
{
}

/// The children of the branch root begin families of their own, and everything
/// below stays in its family.
pub proof fn families_begin_at_the_branches(
    node: u32,
    branch_root: u32,
    slot: usize,
    inherited: usize,
    r: usize,
)
    requires
        call_ensures(family_of, (node, branch_root, slot, inherited), r),
    ensures
        node == branch_root ==> r == slot,
        node != branch_root ==> r == inherited,
{
}

/// A level that spreads takes one of the rings that are left; one that stands in
/// its parent's place takes none. There is a ring for the level itself in any case.
pub proof fn a_level_takes_one_ring(collapsed: bool, left: u32, r: RingBudget)
    requires
        call_ensures(ring_budget, (collapsed, left), r),
    ensures
        r.here >= 1,
        left > 0 ==> r.here == left,
        collapsed ==> r.below == left,
        !collapsed && left > 0 ==> r.below + 1 == left,
        left == 0 ==> r.here == 1 && r.below == 0,
{
}

/// Dots are solid down to the branches.
pub proof fn dots_are_solid_down_to_the_branches(depth: u32, level: u32, r: bool)
    requires
        call_ensures(is_solid, (depth, level), r),
    ensures
        r <==> !(depth > level),
{
}

} // verus!
