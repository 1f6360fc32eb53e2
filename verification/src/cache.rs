//! Caches of finished computations, kept per scan generation, node and scope.
use crate::explore::AgeMapData;
use crate::sidebar::QuickWinRow;
use crate::top::TopSizes;
use std::collections::{HashMap, HashSet};
use vstd::prelude::*;

verus! {

/// What a cached result was computed for.
#[derive(Clone, Copy, Debug, PartialEq, Eq, Structural)]
pub struct MemoKey {
    pub generation: u64,
    pub node: u32,
    pub scope: u8,
}

/// The key as one number: the generation, the node and the scope side by side.
pub open spec fn number(k: MemoKey) -> u128 {
    (k.generation * 0x100_0000_0000 + k.node * 0x100 + k.scope) as u128
}

/// Different keys have different numbers.
proof fn numbers_differ(a: MemoKey, b: MemoKey)
    ensures
        number(a) == number(b) <==> a == b,
{
    let x = a.generation * 0x100_0000_0000 + a.node * 0x100 + a.scope;
    let y = b.generation * 0x100_0000_0000 + b.node * 0x100 + b.scope;
    assert(0 <= x <= u128::MAX && 0 <= y <= u128::MAX);
    if x == y {
        assert(a.scope == b.scope);
        assert(a.node == b.node);
    }
}

/// The key as one number.
fn number_of(k: MemoKey) -> (r: u128)
    ensures
        r == number(k),
{
    k.generation as u128 * 0x100_0000_0000 + k.node as u128 * 0x100 + k.scope as u128
}

/// Results by key.
#[derive(Debug)]
pub struct Memo<V> {
    pub entries: HashMap<u128, V>,
}

impl<V> Memo<V> {
    /// The result kept for a key.
    pub open spec fn kept(&self, key: MemoKey) -> Option<V> {
        if self.entries@.contains_key(number(key)) {
            Some(self.entries@[number(key)])
        } else {
            None
        }
    }

    /// A cache with nothing in it.
    pub fn new() -> (r: Self)
        ensures
            forall|k: MemoKey| #[trigger] r.kept(k) is None,
    {
        Memo { entries: HashMap::new() }
    }

    /// The result kept for a key.
    pub fn get(&self, key: MemoKey) -> (r: Option<&V>)
        ensures
            match r {
                Some(v) => self.kept(key) == Some(*v),
                None => self.kept(key) is None,
            },
    {
        broadcast use vstd::std_specs::hash::group_hash_axioms;

        self.entries.get(&number_of(key))
    }

    /// Keeps a result; the results for other keys stay.
    pub fn put(&mut self, key: MemoKey, v: V)
        ensures
            final(self).kept(key) == Some(v),
            forall|k: MemoKey| k != key ==> #[trigger] final(self).kept(k) == old(self).kept(k),
    {
        broadcast use vstd::std_specs::hash::group_hash_axioms;

        self.entries.insert(number_of(key), v);
        proof {
            assert forall|k: MemoKey| k != key implies #[trigger] self.kept(k) == old(self).kept(
                k,
            ) by {
                numbers_differ(k, key);
            }
        }
    }

    /// Forgets everything.
    pub fn clear(&mut self)
        ensures
            forall|k: MemoKey| #[trigger] final(self).kept(k) is None,
    {
        self.entries.clear();
    }
}

/// Rankings that are finished or under way.
#[derive(Debug)]
pub struct TopCache {
    /// Finished rankings, without a filter.
    pub done: Memo<TopSizes>,
    /// Rankings that someone is computing.
    pub inflight: HashSet<u128>,
}

/// An empty cache.
pub fn top_cache() -> (r: TopCache)
    ensures
        forall|k: MemoKey| #[trigger] r.done.kept(k) is None,
        forall|k: MemoKey| !#[trigger] r.computes(k),
{
    TopCache { done: Memo::new(), inflight: HashSet::new() }
}

impl TopCache {
    /// Someone is computing the ranking.
    pub open spec fn computes(&self, key: MemoKey) -> bool {
        self.inflight@.contains(number(key))
    }

    /// Forgets everything: the scan was replaced.
    pub fn clear(&mut self)
        ensures
            forall|k: MemoKey| #[trigger] final(self).done.kept(k) is None,
            forall|k: MemoKey| !#[trigger] final(self).computes(k),
    {
        self.done.clear();
        self.inflight.clear();
    }

    /// Marks a ranking as under way; `true` for the first to do so.
    pub fn begin(&mut self, key: MemoKey) -> (first: bool)
        ensures
            first == !old(self).computes(key),
            final(self).computes(key),
            forall|k: MemoKey|
                k != key ==> #[trigger] final(self).computes(k) == old(self).computes(k),
            final(self).done == old(self).done,
    {
        broadcast use vstd::std_specs::hash::group_hash_axioms;

        let first = self.inflight.insert(number_of(key));
        proof {
            assert forall|k: MemoKey| k != key implies #[trigger] self.computes(k) == old(
                self,
            ).computes(k) by {
                numbers_differ(k, key);
            }
        }
        first
    }

    /// Keeps a finished ranking and takes its mark away.
    pub fn finish(&mut self, key: MemoKey, v: TopSizes)
        ensures
            final(self).done.kept(key) == Some(v),
            forall|k: MemoKey|
                k != key ==> #[trigger] final(self).done.kept(k) == old(self).done.kept(k),
            !final(self).computes(key),
            forall|k: MemoKey|
                k != key ==> #[trigger] final(self).computes(k) == old(self).computes(k),
    {
        broadcast use vstd::std_specs::hash::group_hash_axioms;

        self.done.put(key, v);
        self.inflight.remove(&number_of(key));
        proof {
            assert forall|k: MemoKey| k != key implies #[trigger] self.computes(k) == old(
                self,
            ).computes(k) by {
                numbers_differ(k, key);
            }
        }
    }
}

/// Age maps that are finished.
#[derive(Debug)]
pub struct AgeCache {
    pub done: Memo<AgeMapData>,
}

/// An empty cache.
pub fn age_cache() -> (r: AgeCache)
    ensures
        forall|k: MemoKey| #[trigger] r.done.kept(k) is None,
{
    AgeCache { done: Memo::new() }
}

/// The key of what is kept per scan and node.
pub open spec fn node_key(generation: u64, node: u32) -> MemoKey {
    MemoKey { generation, node, scope: 0 }
}

impl AgeCache {
    /// The age map kept for a node of a scan.
    pub fn find(&self, generation: u64, node: u32) -> (r: Option<&AgeMapData>)
        ensures
            match r {
                Some(v) => self.done.kept(node_key(generation, node)) == Some(*v),
                None => self.done.kept(node_key(generation, node)) is None,
            },
    {
        self.done.get(MemoKey { generation, node, scope: 0 })
    }

    /// Keeps an age map; the others stay.
    pub fn keep(&mut self, generation: u64, node: u32, v: AgeMapData)
        ensures
            final(self).done.kept(node_key(generation, node)) == Some(v),
            forall|k: MemoKey|
                k != node_key(generation, node) ==> #[trigger] final(self).done.kept(k) == old(
                    self,
                ).done.kept(k),
    {
        self.done.put(MemoKey { generation, node, scope: 0 }, v);
    }

    /// Forgets everything: the scan was replaced.
    pub fn clear(&mut self)
        ensures
            forall|k: MemoKey| #[trigger] final(self).done.kept(k) is None,
    {
        self.done.clear();
    }
}

/// Lists of quick wins that are finished.
#[derive(Debug)]
pub struct QuickWinsCache {
    pub done: Memo<Vec<QuickWinRow>>,
}

/// An empty cache.
pub fn quick_wins_cache() -> (r: QuickWinsCache)
    ensures
        forall|k: MemoKey| #[trigger] r.done.kept(k) is None,
{
    QuickWinsCache { done: Memo::new() }
}

impl QuickWinsCache {
    /// The list kept for a scan.
    pub fn find(&self, generation: u64) -> (r: Option<&Vec<QuickWinRow>>)
        ensures
            match r {
                Some(v) => self.done.kept(node_key(generation, 0)) == Some(*v),
                None => self.done.kept(node_key(generation, 0)) is None,
            },
    {
        self.done.get(MemoKey { generation, node: 0, scope: 0 })
    }

    /// Keeps a list; those of other scans stay.
    pub fn keep(&mut self, generation: u64, v: Vec<QuickWinRow>)
        ensures
            final(self).done.kept(node_key(generation, 0)) == Some(v),
            forall|k: MemoKey|
                k != node_key(generation, 0) ==> #[trigger] final(self).done.kept(k) == old(
                    self,
                ).done.kept(k),
    {
        self.done.put(MemoKey { generation, node: 0, scope: 0 }, v);
    }

    /// Forgets everything: the scan was replaced or items left it.
    pub fn clear_pub(&mut self)
        ensures
            forall|k: MemoKey| #[trigger] final(self).done.kept(k) is None,
    {
        self.done.clear();
    }
}

/// Forgets everything that was computed for a scan.
pub fn clear_all_caches(top: &mut TopCache, age: &mut AgeCache, quick_wins: &mut QuickWinsCache)
    ensures
        forall|k: MemoKey| #[trigger] final(top).done.kept(k) is None,
        forall|k: MemoKey| !#[trigger] final(top).computes(k),
        forall|k: MemoKey| #[trigger] final(age).done.kept(k) is None,
        forall|k: MemoKey| #[trigger] final(quick_wins).done.kept(k) is None,
{
    top.clear();
    age.clear();
    quick_wins.clear_pub();
}

/// What is kept for one node of one scan is kept for no other: two keys are the
/// same only where scan and node are.
pub proof fn nodes_and_scans_stay_apart(g: u64, n: u32, h: u64, m: u32)
    ensures
        node_key(g, n) == node_key(h, m) <==> g == h && n == m,
        number(node_key(g, n)) == number(node_key(h, m)) <==> g == h && n == m,
{
    numbers_differ(node_key(g, n), node_key(h, m));
}

} // verus!
