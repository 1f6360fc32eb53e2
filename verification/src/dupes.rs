//! Duplicates in three passes: files of one size, then of one prefix digest,
//! then of one full digest. Hard links to one file are not duplicates, and
//! cloud placeholders are never opened.
use crate::digest;
use crate::digest::PREFIX;
use crate::order;
use crate::rollup;
use crate::seqs;
use crate::shares;
use crate::tree::Tree;
use vstd::prelude::*;

verus! {

/// Most groups shown.
pub const GROUPS_CAP: usize = 200;

// ---------------------------------------------------------------------------
// Candidates
// ---------------------------------------------------------------------------

/// A file that may have duplicates.
#[derive(Clone, Debug)]
pub struct Candidate {
    pub path: String,
    pub size: u64,
    pub id: u32,
}

/// A live local file with content.
pub open spec fn has_content(t: Tree) -> spec_fn(u32) -> bool {
    |id: u32|
        {
            let n = t.at(id as int);
            !n.dir && !n.removed && !n.cloud && n.logical > 0
        }
}

/// The candidates are the given files in order.
pub open spec fn candidates_of(c: Seq<Candidate>, t: Tree, ids: Seq<u32>) -> bool {
    &&& c.len() == ids.len()
    &&& forall|i: int|
        0 <= i < c.len() ==> {
            &&& (#[trigger] c[i]).id == ids[i]
            &&& c[i].size == t.at(ids[i] as int).logical
            &&& c[i].path@ == t.path_of(ids[i] as int)
        }
}

/// Collects the files that may have duplicates.
pub fn collect_candidates(tree: &Tree) -> (r: Vec<Candidate>)
    requires
        tree.wf(),
    ensures
        candidates_of(r@, *tree, tree.preorder(tree.root as int).filter(has_content(*tree))),
{
    let ids = tree.walk(tree.root);
    let ghost p = has_content(*tree);
    let mut out: Vec<Candidate> = Vec::new();
    let mut i: usize = 0;
    proof {
        tree.walk_is_the_subtree(tree.root);
        assert forall|k: int| 0 <= k < ids@.len() implies tree.has(#[trigger] ids@[k] as int) by {
            assert(ids@.contains(ids@[k]));
            tree.under_is_later(ids@[k] as int, tree.root as int);
        }
        seqs::filter_nothing::<u32>(p);
        assert(ids@.take(0) =~= Seq::empty());
    }
    while i < ids.len()
        invariant
            tree.wf(),
            i <= ids.len(),
            forall|k: int| 0 <= k < ids@.len() ==> tree.has(#[trigger] ids@[k] as int),
            p == has_content(*tree),
            candidates_of(out@, *tree, ids@.take(i as int).filter(p)),
        decreases ids.len() - i,
    {
        let id: u32 = ids[i];
        proof {
            seqs::filter_step(ids@, i as int, p);
            assert(tree.has(ids@[i as int] as int));
        }
        let n = tree.arena[id as usize];
        if !n.dir && !n.removed && !n.cloud && n.logical > 0 {
            out.push(Candidate { path: tree.node_path(id), size: n.logical, id });
        }
        i += 1;
    }
    assert(ids@.take(i as int) =~= ids@);
    out
}

/// No candidate is a cloud placeholder, a folder or an empty file.
pub proof fn placeholders_are_never_candidates(t: Tree, i: int)
    requires
        t.wf(),
        0 <= i < t.preorder(0).filter(has_content(t)).len(),
    ensures
        !t.at(t.preorder(0).filter(has_content(t))[i] as int).cloud,
        !t.at(t.preorder(0).filter(has_content(t))[i] as int).dir,
        t.at(t.preorder(0).filter(has_content(t))[i] as int).logical > 0,
{
    let f = t.preorder(0).filter(has_content(t));
    seqs::filter_members(t.preorder(0), has_content(t));
    assert(f.contains(f[i]));
}

// ---------------------------------------------------------------------------
// Grouping by size
// ---------------------------------------------------------------------------

/// The indices below `n` with the given size, ascending.
pub open spec fn with_size(sizes: Seq<u64>, size: u64, n: nat) -> Seq<u32>
    decreases n,
{
    if n == 0 {
        Seq::empty()
    } else {
        let rest = with_size(sizes, size, (n - 1) as nat);
        if sizes[n - 1] == size {
            rest.push((n - 1) as u32)
        } else {
            rest
        }
    }
}

/// Strictly ascending.
pub open spec fn ascending(s: Seq<u32>) -> bool {
    forall|i: int, j: int| 0 <= i < j < s.len() ==> #[trigger] s[i] < #[trigger] s[j]
}

proof fn with_size_members(sizes: Seq<u64>, size: u64, n: nat)
    requires
        n <= sizes.len(),
        n <= u32::MAX,
    ensures
        ascending(with_size(sizes, size, n)),
        forall|k: int|
            0 <= k < with_size(sizes, size, n).len() ==> (#[trigger] with_size(sizes, size, n)[k])
                < n && sizes[with_size(sizes, size, n)[k] as int] == size,
        forall|i: int|
            0 <= i < n && #[trigger] sizes[i] == size ==> with_size(sizes, size, n).contains(
                i as u32,
            ),
    decreases n,
{
    if n > 0 {
        let m = (n - 1) as nat;
        with_size_members(sizes, size, m);
        let rest = with_size(sizes, size, m);
        let whole = with_size(sizes, size, n);
        assert forall|k: int| 0 <= k < whole.len() implies (#[trigger] whole[k]) < n
            && sizes[whole[k] as int] == size by {
            if k < rest.len() {
                assert(whole[k] == rest[k]);
            }
        }
        assert forall|i: int, j: int| 0 <= i < j < whole.len() implies #[trigger] whole[i]
            < #[trigger] whole[j] by {
            assert(whole[i] == rest[i]);
            if j < rest.len() {
                assert(whole[j] == rest[j]);
            }
        }
        assert forall|i: int| 0 <= i < n && #[trigger] sizes[i] == size implies whole.contains(
            i as u32,
        ) by {
            if i < m {
                let q = rest.index_of(i as u32);
                assert(whole[q] == i as u32);
            } else {
                assert(whole[rest.len() as int] == i as u32);
            }
        }
    }
}

/// Ascending lists with the same members are equal.
proof fn ascending_unique(a: Seq<u32>, b: Seq<u32>)
    requires
        ascending(a),
        ascending(b),
        forall|x: u32| a.contains(x) <==> b.contains(x),
    ensures
        a == b,
    decreases a.len(),
{
    if a.len() == 0 {
        if b.len() > 0 {
            assert(b.contains(b[0]));
            assert(a.contains(b[0]));
        }
        assert(a =~= b);
    } else if b.len() == 0 {
        assert(a.contains(a[0]));
        assert(b.contains(a[0]));
    } else {
        let x = a.last();
        let y = b.last();
        assert(a[a.len() - 1] == x && b[b.len() - 1] == y);
        assert(a.contains(x) && b.contains(y));
        assert(b.contains(x) && a.contains(y));
        let i = a.index_of(y);
        let j = b.index_of(x);
        assert(a[i] == y && b[j] == x);
        assert(x == y);
        let a1 = a.drop_last();
        let b1 = b.drop_last();
        assert forall|z: u32| a1.contains(z) <==> b1.contains(z) by {
            if a1.contains(z) {
                let q = a1.index_of(z);
                assert(a[q] == z);
                assert(a.contains(z));
                let w = b.index_of(z);
                assert(b[w] == z);
                assert(z < x);
                assert(b1[w] == z);
            }
            if b1.contains(z) {
                let q = b1.index_of(z);
                assert(b[q] == z);
                assert(b.contains(z));
                let w = a.index_of(z);
                assert(a[w] == z);
                assert(z < x);
                assert(a1[w] == z);
            }
        }
        ascending_unique(a1, b1);
        assert(a =~= a1.push(x));
        assert(b =~= b1.push(y));
    }
}

/// Indices grouped by size, and the group of each index.
pub struct Partition {
    pub runs: Vec<Vec<u32>>,
    pub run_of: Vec<u32>,
}

impl Partition {
    /// Every index leads to the indices of its size.
    pub open spec fn groups(&self, sizes: Seq<u64>) -> bool {
        &&& self.run_of@.len() == sizes.len()
        &&& forall|i: int|
            0 <= i < sizes.len() ==> (#[trigger] self.run_of@[i]) < self.runs@.len()
                && self.runs@[self.run_of@[i] as int]@ == with_size(sizes, sizes[i], sizes.len())
    }
}

/// The sizes with their indices.
pub open spec fn indexed(sizes: Seq<u64>) -> Seq<(u64, u32)> {
    Seq::new(sizes.len(), |i: int| (sizes[i], i as u32))
}

proof fn indexed_distinct(sizes: Seq<u64>)
    requires
        sizes.len() <= u32::MAX,
    ensures
        indexed(sizes).no_duplicates(),
{
}

/// A maximal stretch of one size in the ranking is the group of that size.
proof fn stretch_is_group(sizes: Seq<u64>, r: Seq<(u64, u32)>, a: int, b: int, run: Seq<u32>)
    requires
        sizes.len() <= u32::MAX,
        r == order::ranking(indexed(sizes)),
        0 <= a < b <= r.len(),
        run.len() == b - a,
        forall|k: int| 0 <= k < run.len() ==> #[trigger] run[k] == r[a + k].1,
        forall|k: int| a <= k < b ==> (#[trigger] r[k]).0 == r[a].0,
        forall|k: int| 0 <= k < a ==> (#[trigger] r[k]).0 > r[a].0,
        b < r.len() ==> r[b].0 != r[a].0,
    ensures
        run == with_size(sizes, r[a].0, sizes.len()),
{
    let size = r[a].0;
    let ids = indexed(sizes);
    let w = with_size(sizes, size, sizes.len());
    indexed_distinct(sizes);
    order::ranking_is_ranked(ids);
    with_size_members(sizes, size, sizes.len());
    assert(ascending(run)) by {
        assert forall|i: int, j: int| 0 <= i < j < run.len() implies #[trigger] run[i]
            < #[trigger] run[j] by {
            let x = r[a + i];
            let y = r[a + j];
            assert(order::before(x, y));
            assert(x.0 == size && y.0 == size);
            assert(x != y);
        }
    }
    assert forall|x: u32| run.contains(x) <==> w.contains(x) by {
        if run.contains(x) {
            let k = run.index_of(x);
            assert(run[k] == x);
            assert(r[a + k] == (size, x));
            assert(r.contains(r[a + k]));
            let q = ids.index_of((size, x));
            assert(ids[q] == (sizes[q], q as u32));
            assert(sizes[q] == size);
        }
        if w.contains(x) {
            let k = w.index_of(x);
            assert(w[k] == x);
            assert(sizes[x as int] == size);
            assert(ids[x as int] == (size, x));
            assert(ids.contains((size, x)));
            assert(r.contains((size, x)));
            let q = r.index_of((size, x));
            assert(r[q] == (size, x));
            if q >= b {
                assert(r[b].0 != size);
                assert(order::before(r[a], r[b]));
                if q > b {
                    assert(order::before(r[b], r[q]));
                }
            }
            assert(a <= q < b);
            assert(run[q - a] == x);
        }
    }
    ascending_unique(run, w);
}

/// Groups indices by size.
pub fn partition(sizes: &Vec<u64>) -> (p: Partition)
    requires
        sizes@.len() <= u32::MAX,
    ensures
        p.groups(sizes@),
{
    let n: usize = sizes.len();
    let mut pairs: Vec<(u64, u32)> = Vec::new();
    let mut i: usize = 0;
    while i < n
        invariant
            i <= n,
            n == sizes.len(),
            n <= u32::MAX,
            pairs@ == indexed(sizes@).take(i as int),
        decreases n - i,
    {
        pairs.push((sizes[i], i as u32));
        assert(pairs@ =~= indexed(sizes@).take(i + 1));
        i += 1;
    }
    assert(indexed(sizes@).take(i as int) =~= indexed(sizes@));
    let r = order::rank(pairs.as_slice());
    proof {
        order::ranking_is_ranked(indexed(sizes@));
        indexed_distinct(sizes@);
        assert forall|k: int| 0 <= k < r@.len() implies (#[trigger] r@[k]).1 < n && sizes@[r@[k].1
            as int] == r@[k].0 by {
            assert(r@.contains(r@[k]));
            let q = indexed(sizes@).index_of(r@[k]);
            assert(indexed(sizes@)[q] == r@[k]);
        }
    }
    let mut runs: Vec<Vec<u32>> = Vec::new();
    let mut run_of: Vec<u32> = Vec::new();
    run_of.resize(n, 0);
    let mut a: usize = 0;
    while a < r.len()
        invariant
            n == sizes.len(),
            n <= u32::MAX,
            r@ == order::ranking(indexed(sizes@)),
            order::ranked(r@),
            r@.no_duplicates(),
            r@.len() == n,
            forall|k: int|
                0 <= k < r@.len() ==> (#[trigger] r@[k]).1 < n && sizes@[r@[k].1 as int] == r@[k].0,
            a <= r.len(),
            runs@.len() <= a,
            a > 0 && a < r.len() ==> r@[a - 1].0 != r@[a as int].0,
            run_of@.len() == n,
            forall|k: int|
                0 <= k < a ==> run_of@[(#[trigger] r@[k]).1 as int] < runs@.len()
                    && runs@[run_of@[r@[k].1 as int] as int]@ == with_size(
                    sizes@,
                    r@[k].0,
                    sizes@.len(),
                ),
        decreases r.len() - a,
    {
        let size: u64 = r[a].0;
        let mut run: Vec<u32> = Vec::new();
        let mut b: usize = a;
        let group: u32 = runs.len() as u32;
        while b < r.len() && r[b].0 == size
            invariant
                n == sizes.len(),
                n <= u32::MAX,
                r@.len() == n,
                r@.no_duplicates(),
                size == r@[a as int].0,
                a <= b <= r.len(),
                a < r.len(),
                group == runs@.len(),
                run@.len() == b - a,
                run_of@.len() == n,
                forall|k: int|
                    0 <= k < r@.len() ==> (#[trigger] r@[k]).1 < n && sizes@[r@[k].1 as int]
                        == r@[k].0,
                forall|k: int| 0 <= k < run@.len() ==> #[trigger] run@[k] == r@[a + k].1,
                forall|k: int| a <= k < b ==> (#[trigger] r@[k]).0 == size,
                forall|k: int| a <= k < b ==> run_of@[(#[trigger] r@[k]).1 as int] == group,
                forall|k: int|
                    0 <= k < a ==> run_of@[(#[trigger] r@[k]).1 as int] < runs@.len()
                        && runs@[run_of@[r@[k].1 as int] as int]@ == with_size(
                        sizes@,
                        r@[k].0,
                        sizes@.len(),
                    ),
            decreases r.len() - b,
        {
            let id: u32 = r[b].1;
            run.push(id);
            proof {
                assert(r@[b as int].1 < n);
                assert forall|k: int| 0 <= k < b implies (#[trigger] r@[k]).1 != id by {
                    assert(r@[k] != r@[b as int]);
                    assert(r@[k].1 < n && sizes@[r@[k].1 as int] == r@[k].0);
                }
            }
            run_of.set(id as usize, group);
            b += 1;
        }
        proof {
            assert forall|k: int| 0 <= k < a implies (#[trigger] r@[k]).0 > r@[a as int].0 by {
                assert(order::before(r@[a - 1], r@[a as int]));
                if k < a - 1 {
                    assert(order::before(r@[k], r@[a - 1]));
                }
            }
            stretch_is_group(sizes@, r@, a as int, b as int, run@);
        }
        let ghost before = runs@;
        let ghost list = run@;
        runs.push(run);
        proof {
            assert(runs@ == before.push(run));
            assert forall|k: int| 0 <= k < b implies run_of@[(#[trigger] r@[k]).1 as int]
                < runs@.len() && runs@[run_of@[r@[k].1 as int] as int]@ == with_size(
                sizes@,
                r@[k].0,
                sizes@.len(),
            ) by {
                if k < a {
                    let g = run_of@[r@[k].1 as int] as int;
                    assert(runs@[g] == before[g]);
                } else {
                    assert(r@[k].0 == size);
                }
            }
        }
        a = b;
    }
    let p = Partition { runs, run_of };
    proof {
        assert forall|i: int| 0 <= i < sizes@.len() implies (#[trigger] p.run_of@[i])
            < p.runs@.len() && p.runs@[p.run_of@[i] as int]@ == with_size(
            sizes@,
            sizes@[i],
            sizes@.len(),
        ) by {
            let e = (sizes@[i], i as u32);
            assert(indexed(sizes@)[i] == e);
            assert(indexed(sizes@).contains(e));
            assert(r@.contains(e));
            let k = r@.index_of(e);
            assert(r@[k] == e);
            assert(r@[k].1 as int == i);
        }
    }
    p
}

// ---------------------------------------------------------------------------
// Passes
// ---------------------------------------------------------------------------

/// Another index has the same size.
pub open spec fn shares_size(sizes: Seq<u64>, i: int) -> bool {
    exists|j: int| 0 <= j < sizes.len() && j != i && #[trigger] sizes[j] == sizes[i]
}

/// The indices below `n` whose size another index shares, ascending.
pub open spec fn size_mates(sizes: Seq<u64>, n: nat) -> Seq<u32>
    decreases n,
{
    if n == 0 {
        Seq::empty()
    } else {
        let rest = size_mates(sizes, (n - 1) as nat);
        if shares_size(sizes, n - 1) {
            rest.push((n - 1) as u32)
        } else {
            rest
        }
    }
}

/// A group of two or more is a shared size.
proof fn group_of_two(sizes: Seq<u64>, i: int)
    requires
        0 <= i < sizes.len() <= u32::MAX,
    ensures
        with_size(sizes, sizes[i], sizes.len()).len() >= 2 <==> shares_size(sizes, i),
{
    let w = with_size(sizes, sizes[i], sizes.len());
    with_size_members(sizes, sizes[i], sizes.len());
    assert(w.contains(i as u32));
    let q = w.index_of(i as u32);
    assert(w[q] == i as u32);
    if w.len() >= 2 {
        let o = if q == 0 {
            1int
        } else {
            0int
        };
        let j = w[o] as int;
        assert(w[0] < w[1]);
        if o < q {
            assert(w[o] < w[q]);
        } else {
            assert(w[q] < w[o]);
        }
        assert(sizes[j] == sizes[i] && j != i);
    }
    if shares_size(sizes, i) {
        let j = choose|j: int|
            0 <= j < sizes.len() && j != i && #[trigger] sizes[j] == sizes[i];
        assert(w.contains(j as u32));
        let o = w.index_of(j as u32);
        assert(w[o] == j as u32);
        assert(o != q);
    }
}

/// First pass: the files whose prefix has to be read. A size that occurs once
/// is screened out before a single byte is read.
pub fn prefix_targets(sizes: &Vec<u64>) -> (r: Vec<u32>)
    requires
        sizes@.len() <= u32::MAX,
    ensures
        r@ == size_mates(sizes@, sizes@.len()),
{
    let p = partition(sizes);
    let mut out: Vec<u32> = Vec::new();
    let mut i: usize = 0;
    while i < sizes.len()
        invariant
            i <= sizes.len(),
            sizes@.len() <= u32::MAX,
            p.groups(sizes@),
            out@ == size_mates(sizes@, i as nat),
        decreases sizes.len() - i,
    {
        proof {
            group_of_two(sizes@, i as int);
            assert(p.run_of@[i as int] < p.runs@.len());
        }
        if p.runs[p.run_of[i] as usize].len() >= 2 {
            out.push(i as u32);
        }
        i += 1;
    }
    out
}

/// Another index has the same size and the same digest.
pub open spec fn has_twin(
    sizes: Seq<u64>,
    digests: Seq<Option<[u8; 32]>>,
    i: int,
) -> bool {
    &&& digests[i] is Some
    &&& exists|j: int|
        0 <= j < sizes.len() && j != i && #[trigger] sizes[j] == sizes[i] && digests[j] is Some
            && digests[j]->0@ == digests[i]->0@
}

/// The indices below `n` with a twin, ascending.
pub open spec fn twins(sizes: Seq<u64>, digests: Seq<Option<[u8; 32]>>, n: nat) -> Seq<u32>
    decreases n,
{
    if n == 0 {
        Seq::empty()
    } else {
        let rest = twins(sizes, digests, (n - 1) as nat);
        if has_twin(sizes, digests, n - 1) {
            rest.push((n - 1) as u32)
        } else {
            rest
        }
    }
}

/// Whether an index has a twin in the group of its size.
fn find_twin(
    sizes: &Vec<u64>,
    digests: &Vec<Option<[u8; 32]>>,
    run: &Vec<u32>,
    i: usize,
) -> (r: bool)
    requires
        i < sizes.len(),
        sizes@.len() <= u32::MAX,
        digests@.len() == sizes@.len(),
        run@ == with_size(sizes@, sizes@[i as int], sizes@.len()),
    ensures
        r == has_twin(sizes@, digests@, i as int),
{
    let own: [u8; 32] = match digests[i] {
        Some(d) => d,
        None => {
            return false;
        },
    };
    proof {
        with_size_members(sizes@, sizes@[i as int], sizes@.len());
    }
    let mut k: usize = 0;
    while k < run.len()
        invariant
            k <= run.len(),
            i < sizes.len(),
            sizes@.len() <= u32::MAX,
            digests@.len() == sizes@.len(),
            digests@[i as int] == Some(own),
            forall|q: int|
                0 <= q < run@.len() ==> (#[trigger] run@[q]) < sizes@.len() && sizes@[run@[q] as int]
                    == sizes@[i as int],
            forall|q: int|
                0 <= q < k && #[trigger] run@[q] != i ==> !(digests@[run@[q] as int] is Some
                    && digests@[run@[q] as int]->0@ == own@),
        decreases run.len() - k,
    {
        let j: usize = run[k] as usize;
        assert(run@[k as int] < sizes@.len());
        if j != i {
            if let Some(d) = &digests[j] {
                if digest::same_digest(d, &own) {
                    assert(sizes@[j as int] == sizes@[i as int]);
                    return true;
                }
            }
        }
        k += 1;
    }
    proof {
        assert forall|j: int|
            !(0 <= j < sizes@.len() && j != i && #[trigger] sizes@[j] == sizes@[i as int]
                && digests@[j] is Some && digests@[j]->0@ == digests@[i as int]->0@) by {
            if 0 <= j < sizes@.len() && sizes@[j] == sizes@[i as int] {
                assert(run@.contains(j as u32));
                let q = run@.index_of(j as u32);
                assert(run@[q] == j as u32);
            }
        }
    }
    false
}

/// Second pass: the files of one size that also share a prefix digest. An
/// unreadable file (no digest) has no twin.
pub fn prefix_survivors(sizes: &Vec<u64>, digests: &Vec<Option<[u8; 32]>>) -> (r: Vec<u32>)
    requires
        sizes@.len() <= u32::MAX,
        digests@.len() == sizes@.len(),
    ensures
        r@ == twins(sizes@, digests@, sizes@.len()),
{
    let p = partition(sizes);
    let mut out: Vec<u32> = Vec::new();
    let mut i: usize = 0;
    while i < sizes.len()
        invariant
            i <= sizes.len(),
            sizes@.len() <= u32::MAX,
            digests@.len() == sizes@.len(),
            p.groups(sizes@),
            out@ == twins(sizes@, digests@, i as nat),
        decreases sizes.len() - i,
    {
        assert(p.run_of@[i as int] < p.runs@.len());
        if find_twin(sizes, digests, &p.runs[p.run_of[i] as usize], i) {
            out.push(i as u32);
        }
        i += 1;
    }
    out
}

/// Third pass: whether a survivor has to be read in full. Of a file of at most
/// [`PREFIX`] bytes the prefix digest is already the full one.
pub fn needs_full_read(size: u64) -> (r: bool)
    ensures
        r == (size > PREFIX),
{
    size > PREFIX
}

/// The identity of a file for hard-link exclusion: volume and file index where
/// they are known, else one that no other node has.
pub fn file_identity(known: Option<(u64, u64)>, node: u32) -> (r: (u64, u64))
    ensures
        r == (match known {
            Some(k) => k,
            None => (u64::MAX, node as u64),
        }),
{
    match known {
        Some(k) => k,
        None => (u64::MAX, node as u64),
    }
}

// ---------------------------------------------------------------------------
// After hashing
// ---------------------------------------------------------------------------

/// The digest of the whole content of a file: a file no longer than the prefix
/// has it from the first pass.
pub open spec fn content_digest(size: u64, prefix: Option<[u8; 32]>, full: Option<[u8; 32]>) -> Option<
    [u8; 32],
> {
    if size > PREFIX {
        full
    } else {
        prefix
    }
}

/// The hashed file describes the candidate.
pub open spec fn hashes(h: HashedFile, c: Candidate, digest: [u8; 32], known: Option<(u64, u64)>) -> bool {
    &&& h.path@ == c.path@
    &&& h.size == c.size
    &&& h.sha256 == digest
    &&& (h.volume_serial, h.file_index) == (match known {
        Some(k) => k,
        None => (u64::MAX, c.id as u64),
    })
}

/// The survivors whose content could be read, by position.
pub open spec fn readable(
    cands: Seq<Candidate>,
    survivors: Seq<u32>,
    prefixes: Seq<Option<[u8; 32]>>,
    fulls: Seq<Option<[u8; 32]>>,
) -> Seq<int>
    decreases survivors.len(),
{
    if survivors.len() == 0 {
        Seq::empty()
    } else {
        let n = survivors.len() - 1;
        let i = survivors[n] as int;
        let rest = readable(cands, survivors.drop_last(), prefixes, fulls);
        if content_digest(cands[i].size, prefixes[i], fulls[n]) is Some {
            rest.push(n)
        } else {
            rest
        }
    }
}

/// The hashed file describes the survivor at a position.
pub open spec fn hashes_at(
    h: HashedFile,
    cands: Seq<Candidate>,
    survivors: Seq<u32>,
    prefixes: Seq<Option<[u8; 32]>>,
    fulls: Seq<Option<[u8; 32]>>,
    known: Seq<Option<(u64, u64)>>,
    n: int,
) -> bool {
    let c = cands[survivors[n] as int];
    match content_digest(c.size, prefixes[survivors[n] as int], fulls[n]) {
        Some(d) => hashes(h, c, d, known[n]),
        None => false,
    }
}

/// The hashed files describe the readable survivors, one for one.
pub open spec fn all_hashed(
    h: Seq<HashedFile>,
    cands: Seq<Candidate>,
    survivors: Seq<u32>,
    prefixes: Seq<Option<[u8; 32]>>,
    fulls: Seq<Option<[u8; 32]>>,
    known: Seq<Option<(u64, u64)>>,
    at: Seq<int>,
) -> bool {
    h.len() == at.len() && forall|k: int|
        0 <= k < h.len() ==> hashes_at(
            #[trigger] h[k],
            cands,
            survivors,
            prefixes,
            fulls,
            known,
            at[k],
        )
}

/// Joins the survivors with their digests and identities; a file that could not
/// be read is left out. `prefixes` stands by candidate, `fulls` and `known` by
/// survivor.
pub fn hashed_files(
    cands: &Vec<Candidate>,
    survivors: &Vec<u32>,
    prefixes: &Vec<Option<[u8; 32]>>,
    fulls: &Vec<Option<[u8; 32]>>,
    known: &Vec<Option<(u64, u64)>>,
) -> (r: Vec<HashedFile>)
    requires
        prefixes@.len() == cands@.len(),
        fulls@.len() == survivors@.len(),
        known@.len() == survivors@.len(),
        forall|k: int| 0 <= k < survivors@.len() ==> (#[trigger] survivors@[k]) < cands@.len(),
    ensures
        all_hashed(
            r@,
            cands@,
            survivors@,
            prefixes@,
            fulls@,
            known@,
            readable(cands@, survivors@, prefixes@, fulls@),
        ),
{
    let mut out: Vec<HashedFile> = Vec::new();
    let mut n: usize = 0;
    assert(readable(cands@, survivors@.take(0), prefixes@, fulls@) =~= Seq::empty());
    while n < survivors.len()
        invariant
            n <= survivors.len(),
            prefixes@.len() == cands@.len(),
            fulls@.len() == survivors@.len(),
            known@.len() == survivors@.len(),
            forall|k: int| 0 <= k < survivors@.len() ==> (#[trigger] survivors@[k]) < cands@.len(),
            all_hashed(
                out@,
                cands@,
                survivors@,
                prefixes@,
                fulls@,
                known@,
                readable(cands@, survivors@.take(n as int), prefixes@, fulls@),
            ),
        decreases survivors.len() - n,
    {
        let ghost more = survivors@.take(n + 1);
        assert(more.drop_last() =~= survivors@.take(n as int));
        assert(more[n as int] == survivors@[n as int]);
        let ghost at0 = readable(cands@, survivors@.take(n as int), prefixes@, fulls@);
        let ghost at1 = readable(cands@, more, prefixes@, fulls@);
        let ghost out0 = out@;
        let i: usize = survivors[n] as usize;
        let c = &cands[i];
        let digest: Option<[u8; 32]> = if needs_full_read(c.size) {
            fulls[n]
        } else {
            prefixes[i]
        };
        match digest {
            Some(sha256) => {
                let (volume_serial, file_index) = file_identity(known[n], c.id);
                out.push(
                    HashedFile {
                        path: c.path.clone(),
                        size: c.size,
                        volume_serial,
                        file_index,
                        sha256,
                    },
                );
            },
            None => {},
        }
        proof {
            assert(at1 == (if digest is Some {
                at0.push(n as int)
            } else {
                at0
            }));
            assert forall|k: int| 0 <= k < out@.len() implies hashes_at(
                #[trigger] out@[k],
                cands@,
                survivors@,
                prefixes@,
                fulls@,
                known@,
                at1[k],
            ) by {
                if k < out0.len() {
                    assert(out@[k] == out0[k]);
                    assert(at1[k] == at0[k]);
                }
            }
        }
        n += 1;
    }
    assert(survivors@.take(n as int) =~= survivors@);
    out
}

// ---------------------------------------------------------------------------
// Ranking
// ---------------------------------------------------------------------------

/// A file with its full digest.
#[derive(Clone, Debug)]
pub struct HashedFile {
    pub path: String,
    pub size: u64,
    pub volume_serial: u64,
    pub file_index: u64,
    pub sha256: [u8; 32],
}

/// Files with one content.
#[derive(Clone, Debug)]
pub struct DupeGroup {
    pub files: Vec<String>,
    pub size: u64,
    /// Size times the number of copies beyond the first.
    pub wasted: u64,
}

/// Same size and digest.
pub open spec fn same_content(h: Seq<HashedFile>, i: int, j: int) -> bool {
    h[i].size == h[j].size && h[i].sha256@ == h[j].sha256@
}

/// Two names of one file.
pub open spec fn same_file(h: Seq<HashedFile>, i: int, j: int) -> bool {
    h[i].volume_serial == h[j].volume_serial && h[i].file_index == h[j].file_index
}

/// The file has the content of `k` and is not a further name of one that came
/// before.
pub open spec fn is_copy(h: Seq<HashedFile>, k: int, j: int) -> bool {
    &&& same_content(h, j, k)
    &&& forall|i: int| 0 <= i < j && same_content(h, i, k) ==> !(#[trigger] same_file(h, i, j))
}

/// The copies of `k` among the first `n` files.
pub open spec fn copies(h: Seq<HashedFile>, k: int, n: nat) -> Seq<int>
    decreases n,
{
    if n == 0 {
        Seq::empty()
    } else {
        let rest = copies(h, k, (n - 1) as nat);
        if is_copy(h, k, n - 1) {
            rest.push(n - 1)
        } else {
            rest
        }
    }
}

/// No file before has the same content.
pub open spec fn leads(h: Seq<HashedFile>, k: int) -> bool {
    forall|i: int| 0 <= i < k ==> !(#[trigger] same_content(h, i, k))
}

/// A content with two or more copies, told by the first file that has it.
pub open spec fn is_group(h: Seq<HashedFile>, k: int) -> bool {
    leads(h, k) && copies(h, k, h.len()).len() >= 2
}

/// The bytes that the copies of `k` waste.
pub open spec fn wasted_by(h: Seq<HashedFile>, k: int) -> int {
    rollup::capped(h[k].size * (copies(h, k, h.len()).len() - 1))
}

/// The groups among the first `n` files with what they waste.
pub open spec fn groups_upto(h: Seq<HashedFile>, n: nat) -> Seq<(u64, u32)>
    decreases n,
{
    if n == 0 {
        Seq::empty()
    } else {
        let rest = groups_upto(h, (n - 1) as nat);
        if is_group(h, n - 1) {
            rest.push((wasted_by(h, n - 1) as u64, (n - 1) as u32))
        } else {
            rest
        }
    }
}

/// The groups, the most wasteful first.
pub open spec fn ranked_groups(h: Seq<HashedFile>) -> Seq<(u64, u32)> {
    order::ranking(groups_upto(h, h.len()))
}

impl DupeGroup {
    /// The group that `k` tells.
    pub open spec fn shows(&self, h: Seq<HashedFile>, k: int) -> bool {
        let c = copies(h, k, h.len());
        &&& self.size == h[k].size
        &&& self.wasted == wasted_by(h, k)
        &&& self.files@.len() == c.len()
        &&& forall|i: int| 0 <= i < c.len() ==> (#[trigger] self.files@[i])@ == h[c[i]].path@
    }
}

/// Whether two files have the same content.
fn content_equal(a: &HashedFile, b: &HashedFile) -> (r: bool)
    ensures
        r == (a.size == b.size && a.sha256@ == b.sha256@),
{
    a.size == b.size && digest::same_digest(&a.sha256, &b.sha256)
}

/// The copies of `k`, looked for in the group of its size.
fn find_copies(h: &Vec<HashedFile>, run: &Vec<u32>, k: usize, Ghost(sizes): Ghost<Seq<u64>>) -> (r:
    Vec<u32>)
    requires
        k < h.len(),
        h@.len() <= u32::MAX,
        sizes == sizes_of(h@),
        run@ == with_size(sizes, h@[k as int].size, h@.len()),
    ensures
        r@.len() == copies(h@, k as int, h@.len()).len(),
        forall|i: int|
            0 <= i < r@.len() ==> #[trigger] r@[i] as int == copies(h@, k as int, h@.len())[i],
{
    let ghost n = h@.len();
    proof {
        with_size_members(sizes, h@[k as int].size, n);
        assert forall|i: int|
            0 <= i < n && (#[trigger] h@[i]).size == h@[k as int].size implies run@.contains(
            i as u32,
        ) by {
            assert(sizes[i] == h@[i].size);
        }
    }
    let mut out: Vec<u32> = Vec::new();
    let mut seen: Vec<u32> = Vec::new();
    let mut q: usize = 0;
    let ghost mut done: nat = 0;
    while q < run.len()
        invariant
            k < h.len(),
            n == h@.len(),
            n <= u32::MAX,
            sizes == sizes_of(h@),
            q <= run.len(),
            ascending(run@),
            forall|i: int|
                0 <= i < run@.len() ==> (#[trigger] run@[i]) < n && h@[run@[i] as int].size
                    == h@[k as int].size,
            forall|i: int|
                0 <= i < n && (#[trigger] h@[i]).size == h@[k as int].size ==> run@.contains(
                    i as u32,
                ),
            done == (if q == 0 {
                0
            } else {
                run@[q - 1] + 1
            }),
            forall|i: int|
                0 <= i < seen@.len() ==> (#[trigger] seen@[i]) < done && same_content(
                    h@,
                    seen@[i] as int,
                    k as int,
                ),
            forall|i: int|
                0 <= i < done && #[trigger] same_content(h@, i, k as int) ==> seen@.contains(
                    i as u32,
                ),
            out@.len() == copies(h@, k as int, done).len(),
            forall|i: int|
                0 <= i < out@.len() ==> #[trigger] out@[i] as int == copies(h@, k as int, done)[i],
        decreases run.len() - q,
    {
        let j: usize = run[q] as usize;
        assert(run@[q as int] < n);
        proof {
            // Between two members of the group no file has the size, so none is a copy.
            assert(done <= j) by {
                if q > 0 {
                    assert(run@[q - 1] < run@[q as int]);
                }
            }
            assert forall|i: int| done <= i < j implies !(#[trigger] same_content(
                h@,
                i,
                k as int,
            )) by {
                if same_content(h@, i, k as int) {
                    assert(run@.contains(i as u32));
                    let w = run@.index_of(i as u32);
                    assert(run@[w] == i as u32);
                    if w < q {
                        if w < q - 1 {
                            assert(run@[w] < run@[q - 1]);
                        }
                    } else if w > q {
                        assert(run@[q as int] < run@[w]);
                    }
                }
            }
            copies_skip(h@, k as int, done, j as nat);
        }
        if content_equal(&h[j], &h[k]) {
            let mut fresh = true;
            let mut m: usize = 0;
            while m < seen.len()
                invariant
                    m <= seen.len(),
                    k < h.len(),
                    j < h.len(),
                    n == h@.len(),
                    done <= j,
                    forall|i: int|
                        0 <= i < seen@.len() ==> (#[trigger] seen@[i]) < done && same_content(
                            h@,
                            seen@[i] as int,
                            k as int,
                        ),
                    fresh == forall|i: int|
                        0 <= i < m ==> !(#[trigger] same_file(h@, seen@[i] as int, j as int)),
                decreases seen.len() - m,
            {
                assert(seen@[m as int] < done);
                let e: usize = seen[m] as usize;
                if h[e].volume_serial == h[j].volume_serial && h[e].file_index == h[j].file_index {
                    fresh = false;
                    assert(same_file(h@, seen@[m as int] as int, j as int));
                }
                m += 1;
            }
            proof {
                assert(same_content(h@, j as int, k as int));
                assert(fresh == is_copy(h@, k as int, j as int)) by {
                    if fresh {
                        assert forall|i: int|
                            0 <= i < j && same_content(h@, i, k as int) implies !(
                        #[trigger] same_file(h@, i, j as int)) by {
                            assert(i < done);
                            assert(seen@.contains(i as u32));
                            let w = seen@.index_of(i as u32);
                            assert(seen@[w] == i as u32);
                            assert(!same_file(h@, seen@[w] as int, j as int));
                        }
                    } else {
                        let w = choose|w: int|
                            0 <= w < seen@.len() && #[trigger] same_file(
                                h@,
                                seen@[w] as int,
                                j as int,
                            );
                        assert(seen@[w] < done);
                    }
                }
            }
            let ghost old_seen = seen@;
            seen.push(j as u32);
            if fresh {
                out.push(j as u32);
            }
            proof {
                assert forall|i: int|
                    0 <= i < j + 1 && #[trigger] same_content(h@, i, k as int) implies seen@.contains(
                    i as u32,
                ) by {
                    if i < j {
                        assert(i < done);
                        let w = old_seen.index_of(i as u32);
                        assert(seen@[w] == i as u32);
                    } else {
                        assert(seen@[old_seen.len() as int] == i as u32);
                    }
                }
            }
        } else {
            assert(!same_content(h@, j as int, k as int));
        }
        proof {
            done = (j + 1) as nat;
        }
        q += 1;
    }
    proof {
        assert forall|i: int| done <= i < n implies !(#[trigger] same_content(h@, i, k as int)) by {
            if same_content(h@, i, k as int) {
                assert(run@.contains(i as u32));
                let w = run@.index_of(i as u32);
                assert(run@[w] == i as u32);
                if w < q - 1 {
                    assert(run@[w] < run@[q - 1]);
                }
            }
        }
        copies_skip(h@, k as int, done, n);
    }
    out
}

/// Files without the content add no copies.
proof fn copies_skip(h: Seq<HashedFile>, k: int, n: nat, m: nat)
    requires
        n <= m,
        forall|i: int| n <= i < m ==> !(#[trigger] same_content(h, i, k)),
    ensures
        copies(h, k, m) == copies(h, k, n),
    decreases m,
{
    if n < m {
        assert(!same_content(h, m - 1, k));
        copies_skip(h, k, n, (m - 1) as nat);
    }
}

/// The sizes of the files.
pub open spec fn sizes_of(h: Seq<HashedFile>) -> Seq<u64> {
    h.map_values(|f: HashedFile| f.size)
}

/// Whether no file before has the same content.
fn is_leader(h: &Vec<HashedFile>, run: &Vec<u32>, k: usize, Ghost(sizes): Ghost<Seq<u64>>) -> (r:
    bool)
    requires
        k < h.len(),
        h@.len() <= u32::MAX,
        sizes == sizes_of(h@),
        run@ == with_size(sizes, h@[k as int].size, h@.len()),
    ensures
        r == leads(h@, k as int),
{
    proof {
        with_size_members(sizes, h@[k as int].size, h@.len());
    }
    let mut q: usize = 0;
    while q < run.len() && (run[q] as usize) < k
        invariant
            k < h.len(),
            h@.len() <= u32::MAX,
            q <= run.len(),
            ascending(run@),
            forall|i: int| 0 <= i < run@.len() ==> (#[trigger] run@[i]) < h@.len(),
            forall|i: int|
                0 <= i < q ==> !same_content(h@, #[trigger] run@[i] as int, k as int),
        decreases run.len() - q,
    {
        let j: usize = run[q] as usize;
        if content_equal(&h[j], &h[k]) {
            assert(same_content(h@, j as int, k as int));
            return false;
        }
        q += 1;
    }
    proof {
        assert forall|i: int| 0 <= i < k implies !(#[trigger] same_content(h@, i, k as int)) by {
            if same_content(h@, i, k as int) {
                assert(sizes[i] == h@[k as int].size);
                assert(run@.contains(i as u32));
                let w = run@.index_of(i as u32);
                assert(run@[w] == i as u32);
                if w >= q {
                    if w > q {
                        assert(run@[q as int] < run@[w]);
                    }
                }
            }
        }
    }
    true
}

/// The paths of some files.
fn paths_of(h: &Vec<HashedFile>, ids: &Vec<u32>) -> (r: Vec<String>)
    requires
        forall|i: int| 0 <= i < ids@.len() ==> (#[trigger] ids@[i]) < h@.len(),
    ensures
        r@.len() == ids@.len(),
        forall|i: int| 0 <= i < r@.len() ==> (#[trigger] r@[i])@ == h@[ids@[i] as int].path@,
{
    let mut out: Vec<String> = Vec::new();
    let mut i: usize = 0;
    while i < ids.len()
        invariant
            i <= ids.len(),
            forall|k: int| 0 <= k < ids@.len() ==> (#[trigger] ids@[k]) < h@.len(),
            out@.len() == i,
            forall|k: int| 0 <= k < i ==> (#[trigger] out@[k])@ == h@[ids@[k] as int].path@,
        decreases ids.len() - i,
    {
        assert(ids@[i as int] < h@.len());
        out.push(h[ids[i] as usize].path.clone());
        i += 1;
    }
    out
}

/// Copies are files.
proof fn copies_exist(h: Seq<HashedFile>, k: int, n: nat)
    ensures
        copies(h, k, n).len() <= n,
        forall|i: int| 0 <= i < copies(h, k, n).len() ==> 0 <= #[trigger] copies(h, k, n)[i] < n,
    decreases n,
{
    if n > 0 {
        copies_exist(h, k, (n - 1) as nat);
        let rest = copies(h, k, (n - 1) as nat);
        let whole = copies(h, k, n);
        assert forall|i: int| 0 <= i < whole.len() implies 0 <= #[trigger] whole[i] < n by {
            if i < rest.len() {
                assert(whole[i] == rest[i]);
            }
        }
    }
}

/// Groups tell of files.
proof fn groups_exist(h: Seq<HashedFile>, n: nat)
    requires
        n <= h.len() <= u32::MAX,
    ensures
        forall|i: int|
            0 <= i < groups_upto(h, n).len() ==> (#[trigger] groups_upto(h, n)[i]).1 < n && is_group(
                h,
                groups_upto(h, n)[i].1 as int,
            ) && groups_upto(h, n)[i].0 == wasted_by(h, groups_upto(h, n)[i].1 as int),
    decreases n,
{
    if n > 0 {
        groups_exist(h, (n - 1) as nat);
        let rest = groups_upto(h, (n - 1) as nat);
        let whole = groups_upto(h, n);
        wasted_fits(h, n - 1);
        assert forall|i: int| 0 <= i < whole.len() implies (#[trigger] whole[i]).1 < n && is_group(
            h,
            whole[i].1 as int,
        ) && whole[i].0 == wasted_by(h, whole[i].1 as int) by {
            if i < rest.len() {
                assert(whole[i] == rest[i]);
            }
        }
    }
}

proof fn wasted_fits(h: Seq<HashedFile>, k: int)
    ensures
        copies(h, k, h.len()).len() >= 1 ==> 0 <= wasted_by(h, k) <= u64::MAX,
{
    let c = copies(h, k, h.len()).len() - 1;
    let z = h[k].size as int;
    if c >= 0 {
        assert(z * c >= 0) by (nonlinear_arith)
            requires
                z >= 0,
                c >= 0,
        ;
    }
}

/// Puts one group together.
fn make_group(h: &Vec<HashedFile>, p: &Partition, k: usize) -> (r: DupeGroup)
    requires
        k < h.len(),
        h@.len() <= u32::MAX,
        p.groups(sizes_of(h@)),
        is_group(h@, k as int),
    ensures
        r.shows(h@, k as int),
{
    let ghost sizes = sizes_of(h@);
    assert(p.run_of@[k as int] < p.runs@.len());
    assert(sizes[k as int] == h@[k as int].size);
    let ids = find_copies(h, &p.runs[p.run_of[k] as usize], k, Ghost(sizes));
    proof {
        copies_exist(h@, k as int, h@.len());
        assert forall|i: int| 0 <= i < ids@.len() implies (#[trigger] ids@[i]) < h@.len() by {
            assert(ids@[i] as int == copies(h@, k as int, h@.len())[i]);
        }
    }
    let files = paths_of(h, &ids);
    let extra: u64 = (ids.len() - 1) as u64;
    let wasted: u64 = match h[k].size.checked_mul(extra) {
        Some(w) => w,
        None => u64::MAX,
    };
    DupeGroup { files, size: h[k].size, wasted }
}

/// Groups the files by content, drops further names of one file, and ranks the
/// groups by what they waste.
pub fn rank(h: &Vec<HashedFile>) -> (r: Vec<DupeGroup>)
    requires
        h@.len() <= u32::MAX,
    ensures
        r@.len() == ranked_groups(h@).len(),
        forall|i: int|
            0 <= i < r@.len() ==> (#[trigger] r@[i]).shows(h@, ranked_groups(h@)[i].1 as int),
{
    let ghost sizes = sizes_of(h@);
    let mut list: Vec<u64> = Vec::new();
    let mut i: usize = 0;
    while i < h.len()
        invariant
            i <= h.len(),
            sizes == sizes_of(h@),
            list@ == sizes.take(i as int),
        decreases h.len() - i,
    {
        list.push(h[i].size);
        assert(list@ =~= sizes.take(i + 1));
        i += 1;
    }
    assert(list@ =~= sizes);
    let p = partition(&list);
    let mut pairs: Vec<(u64, u32)> = Vec::new();
    let mut k: usize = 0;
    while k < h.len()
        invariant
            k <= h.len(),
            h@.len() <= u32::MAX,
            sizes == sizes_of(h@),
            p.groups(sizes),
            pairs@ == groups_upto(h@, k as nat),
        decreases h.len() - k,
    {
        assert(p.run_of@[k as int] < p.runs@.len());
        assert(sizes[k as int] == h@[k as int].size);
        let run = &p.runs[p.run_of[k] as usize];
        if is_leader(h, run, k, Ghost(sizes)) {
            let ids = find_copies(h, run, k, Ghost(sizes));
            if ids.len() >= 2 {
                let extra: u64 = (ids.len() - 1) as u64;
                let wasted: u64 = match h[k].size.checked_mul(extra) {
                    Some(w) => w,
                    None => u64::MAX,
                };
                pairs.push((wasted, k as u32));
            }
        }
        k += 1;
    }
    let order = order::rank(pairs.as_slice());
    proof {
        order::ranking_is_ranked(pairs@);
        groups_exist(h@, h@.len());
        assert forall|i: int| 0 <= i < order@.len() implies (#[trigger] order@[i]).1 < h@.len()
            && is_group(h@, order@[i].1 as int) by {
            assert(order@.contains(order@[i]));
            let q = pairs@.index_of(order@[i]);
            assert(pairs@[q] == order@[i]);
        }
    }
    let mut out: Vec<DupeGroup> = Vec::new();
    let mut m: usize = 0;
    while m < order.len()
        invariant
            m <= order.len(),
            h@.len() <= u32::MAX,
            p.groups(sizes_of(h@)),
            order@ == ranked_groups(h@),
            forall|i: int|
                0 <= i < order@.len() ==> (#[trigger] order@[i]).1 < h@.len() && is_group(
                    h@,
                    order@[i].1 as int,
                ),
            out@.len() == m,
            forall|i: int| 0 <= i < m ==> (#[trigger] out@[i]).shows(h@, order@[i].1 as int),
        decreases order.len() - m,
    {
        assert(order@[m as int].1 < h@.len());
        let group = make_group(h, &p, order[m].1 as usize);
        out.push(group);
        m += 1;
    }
    out
}

/// What all groups waste.
pub open spec fn wasted_sum(g: Seq<DupeGroup>) -> int
    decreases g.len(),
{
    if g.len() == 0 {
        0
    } else {
        wasted_sum(g.drop_last()) + g.last().wasted
    }
}

proof fn wasted_sum_is_nat(g: Seq<DupeGroup>)
    ensures
        wasted_sum(g) >= 0,
    decreases g.len(),
{
    if g.len() > 0 {
        wasted_sum_is_nat(g.drop_last());
    }
}

/// What all groups waste, and how many there are.
pub fn totals(groups: &Vec<DupeGroup>) -> (r: (u64, u64))
    ensures
        r.0 == rollup::capped(wasted_sum(groups@)),
        r.1 == groups@.len(),
{
    let mut sum: u64 = 0;
    let mut i: usize = 0;
    while i < groups.len()
        invariant
            i <= groups.len(),
            sum == rollup::capped(wasted_sum(groups@.take(i as int))),
        decreases groups.len() - i,
    {
        proof {
            wasted_sum_is_nat(groups@.take(i as int));
            assert(groups@.take(i + 1).drop_last() =~= groups@.take(i as int));
        }
        sum = sum.saturating_add(groups[i].wasted);
        i += 1;
    }
    assert(groups@.take(i as int) =~= groups@);
    (sum, groups.len() as u64)
}

/// One group as shown.
#[derive(Clone, Debug)]
pub struct DupeGroupView {
    /// Position of the group.
    pub id: usize,
    pub paths: Vec<String>,
    /// Per-file size.
    pub size: u64,
    /// Number of members.
    pub count: u64,
    /// Wasted space.
    pub wasted: u64,
}

/// The duplicates of a tree.
#[derive(Debug)]
pub struct DupesResult {
    pub generation: u64,
    pub groups: Vec<DupeGroupView>,
    /// Total wasted bytes, of groups beyond those shown too.
    pub wasted_total: u64,
    /// Files considered.
    pub files: u64,
}

impl DupeGroupView {
    /// The view of a group at a position.
    pub open spec fn shows(&self, g: DupeGroup, position: int) -> bool {
        &&& self.id == position
        &&& self.size == g.size
        &&& self.wasted == g.wasted
        &&& self.count == g.files@.len()
        &&& self.paths@.len() == g.files@.len()
        &&& forall|i: int|
            0 <= i < self.paths@.len() ==> (#[trigger] self.paths@[i])@ == g.files@[i]@
    }
}

fn copy_strings(v: &Vec<String>) -> (r: Vec<String>)
    ensures
        r@.len() == v@.len(),
        forall|i: int| 0 <= i < r@.len() ==> (#[trigger] r@[i])@ == v@[i]@,
{
    let mut out: Vec<String> = Vec::new();
    let mut i: usize = 0;
    while i < v.len()
        invariant
            i <= v.len(),
            out@.len() == i,
            forall|k: int| 0 <= k < i ==> (#[trigger] out@[k])@ == v@[k]@,
        decreases v.len() - i,
    {
        out.push(v[i].clone());
        i += 1;
    }
    out
}

/// Turns ranked groups into what is shown: at most [`GROUPS_CAP`] of them, with
/// the totals over all.
pub fn present(generation: u64, files: u64, groups: &Vec<DupeGroup>) -> (r: DupesResult)
    ensures
        r.generation == generation,
        r.files == files,
        r.wasted_total == rollup::capped(wasted_sum(groups@)),
        r.groups@.len() == shares::first_n(groups@, GROUPS_CAP as int).len(),
        forall|i: int| 0 <= i < r.groups@.len() ==> (#[trigger] r.groups@[i]).shows(groups@[i], i),
{
    let (wasted_total, _) = totals(groups);
    let mut out: Vec<DupeGroupView> = Vec::new();
    let mut i: usize = 0;
    while i < groups.len() && i < GROUPS_CAP
        invariant
            i <= groups.len(),
            i <= GROUPS_CAP,
            out@.len() == i,
            forall|k: int| 0 <= k < i ==> (#[trigger] out@[k]).shows(groups@[k], k),
        decreases groups.len() - i,
    {
        let g = &groups[i];
        out.push(
            DupeGroupView {
                id: i,
                paths: copy_strings(&g.files),
                size: g.size,
                count: g.files.len() as u64,
                wasted: g.wasted,
            },
        );
        i += 1;
    }
    DupesResult { generation, groups: out, wasted_total, files }
}

// ---------------------------------------------------------------------------
// Laws
// ---------------------------------------------------------------------------

/// The members of a group share size and digest, and no two are names of one
/// file.
pub proof fn groups_hold_distinct_files(h: Seq<HashedFile>, k: int, a: int, b: int)
    requires
        0 <= k < h.len(),
        0 <= a < b < copies(h, k, h.len()).len(),
    ensures
        same_content(h, copies(h, k, h.len())[a], copies(h, k, h.len())[b]),
        !same_file(h, copies(h, k, h.len())[a], copies(h, k, h.len())[b]),
{
    copies_hold(h, k, h.len());
    let c = copies(h, k, h.len());
    assert(c[a] < c[b]);
    assert(is_copy(h, k, c[a]) && is_copy(h, k, c[b]));
    assert(same_content(h, c[a], k));
}

proof fn copies_hold(h: Seq<HashedFile>, k: int, n: nat)
    ensures
        forall|i: int|
            0 <= i < copies(h, k, n).len() ==> 0 <= #[trigger] copies(h, k, n)[i] < n && is_copy(
                h,
                k,
                copies(h, k, n)[i],
            ),
        forall|i: int, j: int|
            0 <= i < j < copies(h, k, n).len() ==> #[trigger] copies(h, k, n)[i]
                < #[trigger] copies(h, k, n)[j],
    decreases n,
{
    if n > 0 {
        copies_hold(h, k, (n - 1) as nat);
        let rest = copies(h, k, (n - 1) as nat);
        let whole = copies(h, k, n);
        assert forall|i: int| 0 <= i < whole.len() implies 0 <= #[trigger] whole[i] < n && is_copy(
            h,
            k,
            whole[i],
        ) by {
            if i < rest.len() {
                assert(whole[i] == rest[i]);
            }
        }
        assert forall|i: int, j: int| 0 <= i < j < whole.len() implies #[trigger] whole[i]
            < #[trigger] whole[j] by {
            assert(whole[i] == rest[i]);
            if j < rest.len() {
                assert(whole[j] == rest[j]);
            }
        }
    }
}

/// The ranking stands most wasteful first, and every group has at least two
/// members.
pub proof fn ranking_holds(h: Seq<HashedFile>)
    requires
        h.len() <= u32::MAX,
    ensures
        forall|i: int, j: int|
            0 <= i < j < ranked_groups(h).len() ==> wasted_by(
                h,
                (#[trigger] ranked_groups(h)[i]).1 as int,
            ) >= wasted_by(h, (#[trigger] ranked_groups(h)[j]).1 as int),
        forall|i: int|
            0 <= i < ranked_groups(h).len() ==> is_group(
                h,
                (#[trigger] ranked_groups(h)[i]).1 as int,
            ),
{
    let g = groups_upto(h, h.len());
    groups_exist(h, h.len());
    order::ranking_is_ranked(g);
    let r = ranked_groups(h);
    assert forall|i: int| 0 <= i < r.len() implies is_group(h, (#[trigger] r[i]).1 as int)
        && r[i].0 == wasted_by(h, r[i].1 as int) by {
        assert(r.contains(r[i]));
        let q = g.index_of(r[i]);
        assert(g[q] == r[i]);
    }
    assert forall|i: int, j: int| 0 <= i < j < r.len() implies wasted_by(
        h,
        (#[trigger] r[i]).1 as int,
    ) >= wasted_by(h, (#[trigger] r[j]).1 as int) by {
        assert(order::before(r[i], r[j]));
    }
}

/// A group wastes its size once for every path beyond the first, at most
/// `u64::MAX`; it has at least two paths, and no later group wastes more.
pub proof fn a_group_wastes_its_further_copies(h: &Vec<HashedFile>, r: Vec<DupeGroup>, i: int)
    requires
        h@.len() <= u32::MAX,
        call_ensures(rank, (h,), r),
        0 <= i < r@.len(),
    ensures
        r@[i].files@.len() >= 2,
        r@[i].size * (r@[i].files@.len() - 1) <= u64::MAX ==> r@[i].wasted == r@[i].size * (
        r@[i].files@.len() - 1),
        r@[i].size * (r@[i].files@.len() - 1) > u64::MAX ==> r@[i].wasted == u64::MAX,
        forall|j: int| i <= j < r@.len() ==> r@[i].wasted >= (#[trigger] r@[j]).wasted,
{
    ranking_holds(h@);
    let k = ranked_groups(h@)[i].1 as int;
    assert(is_group(h@, k));
    assert(r@[i].shows(h@, k));
    assert forall|j: int| i <= j < r@.len() implies r@[i].wasted >= (#[trigger] r@[j]).wasted by {
        assert(r@[j].shows(h@, ranked_groups(h@)[j].1 as int));
        if i < j {
            assert(wasted_by(h@, ranked_groups(h@)[i].1 as int) >= wasted_by(
                h@,
                ranked_groups(h@)[j].1 as int,
            ));
        }
    }
}

/// The copies are all files of the content that are no further names.
proof fn copies_complete(h: Seq<HashedFile>, k: int, n: nat)
    ensures
        forall|j: int| 0 <= j < n && #[trigger] is_copy(h, k, j) ==> copies(h, k, n).contains(j),
    decreases n,
{
    if n > 0 {
        copies_complete(h, k, (n - 1) as nat);
        let rest = copies(h, k, (n - 1) as nat);
        let whole = copies(h, k, n);
        assert forall|j: int| 0 <= j < n && #[trigger] is_copy(h, k, j) implies whole.contains(
            j,
        ) by {
            if j < n - 1 {
                let q = rest.index_of(j);
                assert(whole[q] == j);
            } else {
                assert(whole[rest.len() as int] == j);
            }
        }
    }
}

/// Every content with two copies stands among the groups, and none twice.
proof fn groups_complete(h: Seq<HashedFile>, n: nat)
    requires
        n <= h.len() <= u32::MAX,
    ensures
        forall|k: int|
            0 <= k < n && #[trigger] is_group(h, k) ==> groups_upto(h, n).contains(
                (wasted_by(h, k) as u64, k as u32),
            ),
        forall|a: int, b: int|
            0 <= a < b < groups_upto(h, n).len() ==> (#[trigger] groups_upto(h, n)[a]).1 < (
            #[trigger] groups_upto(h, n)[b]).1,
    decreases n,
{
    if n > 0 {
        groups_complete(h, (n - 1) as nat);
        groups_exist(h, (n - 1) as nat);
        let rest = groups_upto(h, (n - 1) as nat);
        let whole = groups_upto(h, n);
        assert forall|k: int| 0 <= k < n && #[trigger] is_group(h, k) implies whole.contains(
            (wasted_by(h, k) as u64, k as u32),
        ) by {
            let e = (wasted_by(h, k) as u64, k as u32);
            if k < n - 1 {
                let q = rest.index_of(e);
                assert(whole[q] == e);
            } else {
                assert(whole[rest.len() as int] == e);
            }
        }
        assert forall|a: int, b: int| 0 <= a < b < whole.len() implies (#[trigger] whole[a]).1 < (
        #[trigger] whole[b]).1 by {
            assert(whole[a] == rest[a]);
            if b < rest.len() {
                assert(whole[b] == rest[b]);
            }
        }
    }
}

/// The first file with a content.
proof fn first_with_content(h: Seq<HashedFile>, x: int) -> (k: int)
    requires
        0 <= x < h.len(),
    ensures
        0 <= k <= x,
        leads(h, k),
        same_content(h, k, x),
    decreases x,
{
    if leads(h, x) {
        x
    } else {
        let i = choose|i: int| 0 <= i < x && #[trigger] same_content(h, i, x);
        let k = first_with_content(h, i);
        assert(same_content(h, k, x));
        k
    }
}

/// The first name of a file among those with one content.
proof fn first_name(h: Seq<HashedFile>, k: int, x: int) -> (j: int)
    requires
        0 <= x < h.len(),
        same_content(h, x, k),
    ensures
        0 <= j <= x,
        is_copy(h, k, j),
        same_file(h, j, x),
    decreases x,
{
    if is_copy(h, k, x) {
        x
    } else {
        let i = choose|i: int|
            0 <= i < x && same_content(h, i, k) && #[trigger] same_file(h, i, x);
        let j = first_name(h, k, i);
        assert(same_file(h, j, x));
        j
    }
}

/// The groups are the contents that separate files share. `at` gives the file
/// that each path of each group stands for: the files of a group have its size,
/// one digest and pairwise different identities, and stand in the order they
/// came in; files of different groups differ in content; and of any two separate
/// files with one content, each is in a group under some name.
pub proof fn groups_are_the_separate_copies(h: &Vec<HashedFile>, r: Vec<DupeGroup>) -> (at: Seq<
    Seq<int>,
>)
    requires
        h@.len() <= u32::MAX,
        call_ensures(rank, (h,), r),
    ensures
        at.len() == r@.len(),
        forall|i: int|
            0 <= i < r@.len() ==> (#[trigger] at[i]).len() == r@[i].files@.len(),
        forall|i: int, m: int|
            0 <= i < r@.len() && 0 <= m < at[i].len() ==> {
                &&& 0 <= #[trigger] at[i][m] < h@.len()
                &&& h@[at[i][m]].path@ == r@[i].files@[m]@
                &&& h@[at[i][m]].size == r@[i].size
            },
        forall|i: int, m: int, n: int|
            0 <= i < r@.len() && 0 <= m < n < at[i].len() ==> {
                &&& #[trigger] at[i][m] < #[trigger] at[i][n]
                &&& h@[at[i][m]].sha256@ == h@[at[i][n]].sha256@
                &&& (h@[at[i][m]].volume_serial, h@[at[i][m]].file_index) != (
                h@[at[i][n]].volume_serial, h@[at[i][n]].file_index)
            },
        forall|i: int, m: int, j: int, n: int|
            0 <= i < r@.len() && 0 <= m < at[i].len() && 0 <= j < r@.len() && 0 <= n < at[j].len()
                && i != j ==> h@[#[trigger] at[i][m]].size != h@[#[trigger] at[j][n]].size
                || h@[at[i][m]].sha256@ != h@[at[j][n]].sha256@,
        forall|x: int, y: int|
            0 <= x < h@.len() && 0 <= y < h@.len() && (#[trigger] h@[x]).size == (
            #[trigger] h@[y]).size && h@[x].sha256@ == h@[y].sha256@ && (
            h@[x].volume_serial,
            h@[x].file_index,
            ) != (h@[y].volume_serial, h@[y].file_index) ==> exists|i: int, m: int|
                0 <= i < r@.len() && 0 <= m < at[i].len() && {
                    let z = #[trigger] at[i][m];
                    &&& z <= x
                    &&& h@[z].size == h@[x].size
                    &&& h@[z].sha256@ == h@[x].sha256@
                    &&& h@[z].volume_serial == h@[x].volume_serial
                    &&& h@[z].file_index == h@[x].file_index
                },
{
    let hs = h@;
    let rg = ranked_groups(hs);
    let at = Seq::new(r@.len(), |i: int| copies(hs, rg[i].1 as int, hs.len()));
    ranking_holds(hs);
    groups_exist(hs, hs.len());
    groups_complete(hs, hs.len());
    let g = groups_upto(hs, hs.len());
    order::ranking_is_ranked(g);
    assert(g.no_duplicates()) by {
        assert forall|a: int, b: int| 0 <= a < g.len() && 0 <= b < g.len() && a != b implies g[a]
            != g[b] by {
            if a < b {
                assert(g[a].1 < g[b].1);
            } else {
                assert(g[b].1 < g[a].1);
            }
        }
    }
    assert forall|i: int| 0 <= i < r@.len() implies {
        &&& (#[trigger] at[i]).len() == r@[i].files@.len()
        &&& r@[i].shows(hs, rg[i].1 as int)
        &&& rg[i].1 < hs.len()
        &&& rg[i].0 == wasted_by(hs, rg[i].1 as int)
        &&& is_group(hs, rg[i].1 as int)
    } by {
        assert(r@[i].shows(hs, rg[i].1 as int));
        assert(rg.contains(rg[i]));
        let q = g.index_of(rg[i]);
        assert(g[q] == rg[i]);
    }
    assert forall|i: int, m: int| 0 <= i < r@.len() && 0 <= m < at[i].len() implies {
        &&& 0 <= #[trigger] at[i][m] < hs.len()
        &&& hs[at[i][m]].path@ == r@[i].files@[m]@
        &&& hs[at[i][m]].size == r@[i].size
        &&& same_content(hs, at[i][m], rg[i].1 as int)
    } by {
        let k = rg[i].1 as int;
        copies_hold(hs, k, hs.len());
        assert(at[i] == copies(hs, k, hs.len()));
        assert(is_copy(hs, k, at[i][m]));
        assert(r@[i].files@[m]@ == hs[at[i][m]].path@);
    }
    assert forall|i: int, m: int, n: int| 0 <= i < r@.len() && 0 <= m < n < at[i].len() implies {
        &&& #[trigger] at[i][m] < #[trigger] at[i][n]
        &&& hs[at[i][m]].sha256@ == hs[at[i][n]].sha256@
        &&& (hs[at[i][m]].volume_serial, hs[at[i][m]].file_index) != (
        hs[at[i][n]].volume_serial, hs[at[i][n]].file_index)
    } by {
        let k = rg[i].1 as int;
        assert(at[i] == copies(hs, k, hs.len()));
        copies_hold(hs, k, hs.len());
        groups_hold_distinct_files(hs, k, m, n);
    }
    assert forall|i: int, m: int, j: int, n: int|
        0 <= i < r@.len() && 0 <= m < at[i].len() && 0 <= j < r@.len() && 0 <= n < at[j].len() && i
            != j implies hs[#[trigger] at[i][m]].size != hs[#[trigger] at[j][n]].size
        || hs[at[i][m]].sha256@ != hs[at[j][n]].sha256@ by {
        let a = rg[i].1 as int;
        let b = rg[j].1 as int;
        assert(at[i].len() == r@[i].files@.len());
        assert(at[j].len() == r@[j].files@.len());
        assert(same_content(hs, at[i][m], a) && same_content(hs, at[j][n], b));
        assert(rg[i] != rg[j]);
        assert(a != b);
        if same_content(hs, at[i][m], at[j][n]) {
            if a < b {
                assert(same_content(hs, a, b));
                assert(leads(hs, b));
            } else if b < a {
                assert(same_content(hs, b, a));
                assert(leads(hs, a));
            }
        }
    }
    assert forall|x: int, y: int|
        0 <= x < hs.len() && 0 <= y < hs.len() && (#[trigger] hs[x]).size == (#[trigger] hs[y]).size
            && hs[x].sha256@ == hs[y].sha256@ && (hs[x].volume_serial, hs[x].file_index) != (
        hs[y].volume_serial, hs[y].file_index) implies exists|i: int, m: int|
        0 <= i < r@.len() && 0 <= m < at[i].len() && {
            let z = #[trigger] at[i][m];
            &&& z <= x
            &&& hs[z].size == hs[x].size
            &&& hs[z].sha256@ == hs[x].sha256@
            &&& hs[z].volume_serial == hs[x].volume_serial
            &&& hs[z].file_index == hs[x].file_index
        } by {
        let k = first_with_content(hs, x);
        assert(same_content(hs, x, k) && same_content(hs, y, k));
        let a = first_name(hs, k, x);
        let b = first_name(hs, k, y);
        copies_complete(hs, k, hs.len());
        let c = copies(hs, k, hs.len());
        assert(c.contains(a) && c.contains(b));
        assert(a != b);
        let qa = c.index_of(a);
        let qb = c.index_of(b);
        assert(c[qa] == a && c[qb] == b && qa != qb);
        assert(c.len() >= 2);
        assert(is_group(hs, k));
        let e = (wasted_by(hs, k) as u64, k as u32);
        assert(g.contains(e));
        assert(rg.contains(e));
        let i = rg.index_of(e);
        assert(rg[i] == e);
        assert(at[i] == c);
        assert(at[i][qa] == a);
        assert(same_content(hs, a, k));
        assert(same_file(hs, a, x));
    }
    at
}

/// One group more raises the total by what it wastes, up to `u64::MAX`, and the
/// number of groups by one; without groups both are zero.
pub proof fn every_group_is_counted(
    g: &Vec<DupeGroup>,
    more: &Vec<DupeGroup>,
    a: (u64, u64),
    b: (u64, u64),
)
    requires
        more@.len() > 0,
        g@ == more@.drop_last(),
        call_ensures(totals, (g,), a),
        call_ensures(totals, (more,), b),
    ensures
        g@.len() == 0 ==> a == (0u64, 0u64),
        b.1 == a.1 + 1,
        a.0 + more@.last().wasted <= u64::MAX ==> b.0 == a.0 + more@.last().wasted,
        a.0 + more@.last().wasted > u64::MAX ==> b.0 == u64::MAX,
{
    wasted_sum_is_nat(g@);
}

/// What is shown are the first groups, two hundred at most, each with all its
/// paths; the total is that of all groups.
pub proof fn the_first_groups_are_shown(
    generation: u64,
    files: u64,
    groups: &Vec<DupeGroup>,
    r: DupesResult,
    all: (u64, u64),
)
    requires
        call_ensures(present, (generation, files, groups), r),
        call_ensures(totals, (groups,), all),
    ensures
        r.wasted_total == all.0,
        r.generation == generation && r.files == files,
        groups@.len() <= 200 ==> r.groups@.len() == groups@.len(),
        groups@.len() > 200 ==> r.groups@.len() == 200,
        forall|i: int|
            0 <= i < r.groups@.len() ==> {
                &&& (#[trigger] r.groups@[i]).id == i
                &&& r.groups@[i].size == groups@[i].size
                &&& r.groups@[i].wasted == groups@[i].wasted
                &&& r.groups@[i].count == groups@[i].files@.len()
                &&& r.groups@[i].paths@.len() == groups@[i].files@.len()
                &&& forall|j: int|
                    0 <= j < groups@[i].files@.len() ==> (#[trigger] r.groups@[i].paths@[j])@
                        == groups@[i].files@[j]@
            },
{
}

/// The candidates are exactly the live local files with content, each once and
/// with its length.
pub proof fn candidates_are_the_files_with_content(t: &Tree, r: Vec<Candidate>)
    requires
        t.wf(),
        call_ensures(collect_candidates, (t,), r),
    ensures
        forall|i: int|
            0 <= i < r@.len() ==> {
                &&& t.under((#[trigger] r@[i]).id as int, t.root as int)
                &&& r@[i].size == t.at(r@[i].id as int).logical
                &&& r@[i].path@ == t.path_of(r@[i].id as int)
            },
        forall|i: int, j: int|
            0 <= i < j < r@.len() ==> (#[trigger] r@[i]).id != (#[trigger] r@[j]).id,
        forall|id: u32| #[trigger]
            t.under(id as int, t.root as int) ==> ((exists|i: int|
                0 <= i < r@.len() && (#[trigger] r@[i]).id == id) <==> (!t.at(id as int).dir
                && !t.at(id as int).removed && !t.at(id as int).cloud && t.at(id as int).logical
                > 0)),
{
    let p = has_content(*t);
    let all = t.preorder(t.root as int);
    let ids = all.filter(p);
    t.walk_is_the_subtree(t.root);
    seqs::filter_members(all, p);
    all.filter_lemma(p);
    seqs::filter_distinct(all, p);
    assert forall|i: int| 0 <= i < r@.len() implies {
        &&& t.under((#[trigger] r@[i]).id as int, t.root as int)
        &&& r@[i].id == ids[i]
    } by {
        assert(ids.contains(ids[i]));
    }
    assert forall|id: u32| #[trigger] t.under(id as int, t.root as int) implies ((exists|i: int|
        0 <= i < r@.len() && (#[trigger] r@[i]).id == id) <==> (!t.at(id as int).dir && !t.at(
        id as int,
    ).removed && !t.at(id as int).cloud && t.at(id as int).logical > 0)) by {
        assert(all.contains(id));
        if p(id) {
            assert(ids.contains(id));
            let q = ids.index_of(id);
            assert(r@[q].id == id);
        }
        if exists|i: int| 0 <= i < r@.len() && (#[trigger] r@[i]).id == id {
            let i = choose|i: int| 0 <= i < r@.len() && (#[trigger] r@[i]).id == id;
            assert(ids.contains(ids[i]));
        }
    }
}

proof fn mates_hold(sizes: Seq<u64>, n: nat)
    requires
        n <= sizes.len() <= u32::MAX,
    ensures
        forall|k: int|
            0 <= k < size_mates(sizes, n).len() ==> (#[trigger] size_mates(sizes, n)[k]) < n
                && shares_size(sizes, size_mates(sizes, n)[k] as int),
        ascending(size_mates(sizes, n)),
        forall|i: int|
            0 <= i < n && #[trigger] shares_size(sizes, i) ==> size_mates(sizes, n).contains(
                i as u32,
            ),
    decreases n,
{
    if n > 0 {
        mates_hold(sizes, (n - 1) as nat);
        let rest = size_mates(sizes, (n - 1) as nat);
        let whole = size_mates(sizes, n);
        assert forall|k: int| 0 <= k < whole.len() implies (#[trigger] whole[k]) < n && shares_size(
            sizes,
            whole[k] as int,
        ) by {
            if k < rest.len() {
                assert(whole[k] == rest[k]);
            }
        }
        assert forall|a: int, b: int| 0 <= a < b < whole.len() implies #[trigger] whole[a]
            < #[trigger] whole[b] by {
            assert(whole[a] == rest[a]);
            if b < rest.len() {
                assert(whole[b] == rest[b]);
            }
        }
        assert forall|i: int| 0 <= i < n && #[trigger] shares_size(sizes, i) implies whole.contains(
            i as u32,
        ) by {
            if i < n - 1 {
                let q = rest.index_of(i as u32);
                assert(whole[q] == i as u32);
            } else {
                assert(whole[rest.len() as int] == i as u32);
            }
        }
    }
}

/// The first pass keeps a file exactly if another file has its size.
pub proof fn a_prefix_is_read_where_sizes_meet(sizes: &Vec<u64>, r: Vec<u32>)
    requires
        sizes@.len() <= u32::MAX,
        call_ensures(prefix_targets, (sizes,), r),
    ensures
        forall|a: int, b: int| 0 <= a < b < r@.len() ==> #[trigger] r@[a] < #[trigger] r@[b],
        forall|k: int|
            0 <= k < r@.len() ==> (#[trigger] r@[k]) < sizes@.len() && exists|j: int|
                0 <= j < sizes@.len() && j != r@[k] && #[trigger] sizes@[j] == sizes@[r@[k] as int],
        forall|i: int, j: int|
            0 <= i < sizes@.len() && 0 <= j < sizes@.len() && i != j && #[trigger] sizes@[i]
                == #[trigger] sizes@[j] ==> r@.contains(i as u32),
{
    mates_hold(sizes@, sizes@.len());
    assert forall|i: int, j: int|
        0 <= i < sizes@.len() && 0 <= j < sizes@.len() && i != j && #[trigger] sizes@[i]
            == #[trigger] sizes@[j] implies r@.contains(i as u32) by {
        assert(shares_size(sizes@, i));
    }
    assert forall|k: int| 0 <= k < r@.len() implies (#[trigger] r@[k]) < sizes@.len() && exists|
        j: int,
    |
        0 <= j < sizes@.len() && j != r@[k] && #[trigger] sizes@[j] == sizes@[r@[k] as int] by {
        assert(shares_size(sizes@, r@[k] as int));
    }
}

proof fn twins_hold(sizes: Seq<u64>, digests: Seq<Option<[u8; 32]>>, n: nat)
    requires
        n <= sizes.len() <= u32::MAX,
    ensures
        forall|k: int|
            0 <= k < twins(sizes, digests, n).len() ==> (#[trigger] twins(sizes, digests, n)[k]) < n
                && has_twin(sizes, digests, twins(sizes, digests, n)[k] as int),
        ascending(twins(sizes, digests, n)),
        forall|i: int|
            0 <= i < n && #[trigger] has_twin(sizes, digests, i) ==> twins(
                sizes,
                digests,
                n,
            ).contains(i as u32),
    decreases n,
{
    if n > 0 {
        twins_hold(sizes, digests, (n - 1) as nat);
        let rest = twins(sizes, digests, (n - 1) as nat);
        let whole = twins(sizes, digests, n);
        assert forall|k: int| 0 <= k < whole.len() implies (#[trigger] whole[k]) < n && has_twin(
            sizes,
            digests,
            whole[k] as int,
        ) by {
            if k < rest.len() {
                assert(whole[k] == rest[k]);
            }
        }
        assert forall|a: int, b: int| 0 <= a < b < whole.len() implies #[trigger] whole[a]
            < #[trigger] whole[b] by {
            assert(whole[a] == rest[a]);
            if b < rest.len() {
                assert(whole[b] == rest[b]);
            }
        }
        assert forall|i: int| 0 <= i < n && #[trigger] has_twin(
            sizes,
            digests,
            i,
        ) implies whole.contains(i as u32) by {
            if i < n - 1 {
                let q = rest.index_of(i as u32);
                assert(whole[q] == i as u32);
            } else {
                assert(whole[rest.len() as int] == i as u32);
            }
        }
    }
}

/// The second pass keeps a file exactly if another readable file has its size
/// and its prefix digest.
pub proof fn a_file_is_read_whole_where_prefixes_meet(
    sizes: &Vec<u64>,
    digests: &Vec<Option<[u8; 32]>>,
    r: Vec<u32>,
)
    requires
        sizes@.len() <= u32::MAX,
        digests@.len() == sizes@.len(),
        call_ensures(prefix_survivors, (sizes, digests), r),
    ensures
        forall|a: int, b: int| 0 <= a < b < r@.len() ==> #[trigger] r@[a] < #[trigger] r@[b],
        forall|k: int|
            0 <= k < r@.len() ==> {
                &&& (#[trigger] r@[k]) < sizes@.len()
                &&& digests@[r@[k] as int] is Some
                &&& exists|j: int|
                    0 <= j < sizes@.len() && j != r@[k] && #[trigger] sizes@[j]
                        == sizes@[r@[k] as int] && digests@[j] is Some && digests@[j]->0@
                        == digests@[r@[k] as int]->0@
            },
        forall|i: int, j: int|
            0 <= i < sizes@.len() && 0 <= j < sizes@.len() && i != j && #[trigger] sizes@[i]
                == #[trigger] sizes@[j] && digests@[i] is Some && digests@[j] is Some
                && digests@[i]->0@ == digests@[j]->0@ ==> r@.contains(i as u32),
{
    twins_hold(sizes@, digests@, sizes@.len());
    assert forall|i: int, j: int|
        0 <= i < sizes@.len() && 0 <= j < sizes@.len() && i != j && #[trigger] sizes@[i]
            == #[trigger] sizes@[j] && digests@[i] is Some && digests@[j] is Some && digests@[i]->0@
            == digests@[j]->0@ implies r@.contains(i as u32) by {
        assert(has_twin(sizes@, digests@, i));
    }
    assert forall|k: int| 0 <= k < r@.len() implies {
        &&& (#[trigger] r@[k]) < sizes@.len()
        &&& digests@[r@[k] as int] is Some
        &&& exists|j: int|
            0 <= j < sizes@.len() && j != r@[k] && #[trigger] sizes@[j] == sizes@[r@[k] as int]
                && digests@[j] is Some && digests@[j]->0@ == digests@[r@[k] as int]->0@
    } by {
        assert(has_twin(sizes@, digests@, r@[k] as int));
    }
}

proof fn readable_hold(
    cands: Seq<Candidate>,
    survivors: Seq<u32>,
    prefixes: Seq<Option<[u8; 32]>>,
    fulls: Seq<Option<[u8; 32]>>,
)
    ensures
        forall|k: int|
            0 <= k < readable(cands, survivors, prefixes, fulls).len() ==> 0 <= #[trigger] readable(
                cands,
                survivors,
                prefixes,
                fulls,
            )[k] < survivors.len(),
        forall|a: int, b: int|
            0 <= a < b < readable(cands, survivors, prefixes, fulls).len() ==> #[trigger] readable(
                cands,
                survivors,
                prefixes,
                fulls,
            )[a] < #[trigger] readable(cands, survivors, prefixes, fulls)[b],
        forall|n: int|
            0 <= n < survivors.len() ==> (readable(cands, survivors, prefixes, fulls).contains(n)
                <==> content_digest(
                cands[(#[trigger] survivors[n]) as int].size,
                prefixes[survivors[n] as int],
                fulls[n],
            ) is Some),
    decreases survivors.len(),
{
    if survivors.len() > 0 {
        let less = survivors.drop_last();
        readable_hold(cands, less, prefixes, fulls);
        let rest = readable(cands, less, prefixes, fulls);
        let whole = readable(cands, survivors, prefixes, fulls);
        let last = survivors.len() - 1;
        assert forall|k: int| 0 <= k < whole.len() implies 0 <= #[trigger] whole[k]
            < survivors.len() by {
            if k < rest.len() {
                assert(whole[k] == rest[k]);
            }
        }
        assert forall|a: int, b: int| 0 <= a < b < whole.len() implies #[trigger] whole[a]
            < #[trigger] whole[b] by {
            assert(whole[a] == rest[a]);
            if b < rest.len() {
                assert(whole[b] == rest[b]);
            }
        }
        assert forall|n: int| 0 <= n < survivors.len() implies (whole.contains(n)
            <==> content_digest(
            cands[(#[trigger] survivors[n]) as int].size,
            prefixes[survivors[n] as int],
            fulls[n],
        ) is Some) by {
            if n < last {
                assert(less[n] == survivors[n]);
                if rest.contains(n) {
                    let q = rest.index_of(n);
                    assert(whole[q] == n);
                }
                if whole.contains(n) {
                    let q = whole.index_of(n);
                    assert(whole[q] == n);
                    assert(q < rest.len());
                    assert(rest[q] == n);
                }
            } else {
                if whole.len() > rest.len() {
                    assert(whole[rest.len() as int] == n);
                }
                if whole.contains(n) {
                    let q = whole.index_of(n);
                    assert(whole[q] == n);
                    if q < rest.len() {
                        assert(rest[q] == n);
                    }
                }
            }
        }
    }
}

/// A survivor of at most 65536 bytes goes on with its prefix digest, a longer
/// one with its full digest, in order; one without that digest is left out. A
/// file without a known identity shares it with no other file.
pub proof fn a_long_file_is_judged_by_its_full_digest(
    cands: &Vec<Candidate>,
    survivors: &Vec<u32>,
    prefixes: &Vec<Option<[u8; 32]>>,
    fulls: &Vec<Option<[u8; 32]>>,
    known: &Vec<Option<(u64, u64)>>,
    r: Vec<HashedFile>,
) -> (at: Seq<int>)
    requires
        prefixes@.len() == cands@.len(),
        fulls@.len() == survivors@.len(),
        known@.len() == survivors@.len(),
        forall|k: int| 0 <= k < survivors@.len() ==> (#[trigger] survivors@[k]) < cands@.len(),
        call_ensures(hashed_files, (cands, survivors, prefixes, fulls, known), r),
    ensures
        at.len() == r@.len(),
        forall|a: int, b: int| 0 <= a < b < at.len() ==> #[trigger] at[a] < #[trigger] at[b],
        forall|k: int|
            0 <= k < r@.len() ==> {
                let n = #[trigger] at[k];
                let c = cands@[survivors@[n] as int];
                &&& 0 <= n < survivors@.len()
                &&& r@[k].path@ == c.path@
                &&& r@[k].size == c.size
                &&& c.size <= 65536 ==> prefixes@[survivors@[n] as int] == Some(r@[k].sha256)
                &&& c.size > 65536 ==> fulls@[n] == Some(r@[k].sha256)
                &&& known@[n] is Some ==> (r@[k].volume_serial, r@[k].file_index) == known@[n]->0
                &&& known@[n] is None ==> r@[k].volume_serial == u64::MAX && r@[k].file_index
                    == c.id
            },
        forall|n: int|
            0 <= n < survivors@.len() ==> (at.contains(n) <==> {
                let i = #[trigger] survivors@[n] as int;
                if cands@[i].size > 65536 {
                    fulls@[n] is Some
                } else {
                    prefixes@[i] is Some
                }
            }),
{
    let at = readable(cands@, survivors@, prefixes@, fulls@);
    readable_hold(cands@, survivors@, prefixes@, fulls@);
    assert forall|k: int| 0 <= k < r@.len() implies {
        let n = #[trigger] at[k];
        let c = cands@[survivors@[n] as int];
        &&& 0 <= n < survivors@.len()
        &&& r@[k].path@ == c.path@
        &&& r@[k].size == c.size
        &&& c.size <= 65536 ==> prefixes@[survivors@[n] as int] == Some(r@[k].sha256)
        &&& c.size > 65536 ==> fulls@[n] == Some(r@[k].sha256)
        &&& known@[n] is Some ==> (r@[k].volume_serial, r@[k].file_index) == known@[n]->0
        &&& known@[n] is None ==> r@[k].volume_serial == u64::MAX && r@[k].file_index == c.id
    } by {
        assert(hashes_at(r@[k], cands@, survivors@, prefixes@, fulls@, known@, at[k]));
    }
    at
}

/// A file is read whole where it is longer than 65536 bytes.
pub proof fn only_long_files_are_read_whole(size: u64, r: bool)
    requires
        call_ensures(needs_full_read, (size,), r),
    ensures
        r <==> size > 65536,
{
}

/// A file whose identity is known has it; two nodes whose identity is not known
/// are two files.
pub proof fn unknown_files_are_distinct(
    known: Option<(u64, u64)>,
    a: u32,
    b: u32,
    ra: (u64, u64),
    rb: (u64, u64),
)
    requires
        call_ensures(file_identity, (known, a), ra),
        call_ensures(file_identity, (known, b), rb),
    ensures
        known matches Some(k) ==> ra == k && rb == k,
        known is None ==> (ra == rb <==> a == b) && ra.0 == u64::MAX,
{
}

} // verus!
