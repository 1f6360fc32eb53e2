//! Installed applications: entries from the registry and the Store, footprints,
//! and the uninstall flow.
use crate::order;
use crate::platform::processes;
use crate::platform::{RawMsixApp, RawRegistryApp};
use crate::rollup;
use crate::scan;
use crate::shares;
use crate::sidebar::KnownFolders;
use crate::text;
use vstd::prelude::*;

verus! {

/// Most applications listed.
pub const APPS_CAP: usize = 500;

/// Where an application is registered.
#[derive(Clone, Copy, Debug, PartialEq, Eq, Structural)]
pub enum AppSource {
    Registry,
    Msix,
}

/// Data that an application left in one root.
#[derive(Clone, Debug)]
pub struct LeftoverGroup {
    /// Index of the root.
    pub label_idx: usize,
    pub paths: Vec<String>,
    pub size: u64,
}

/// One installed application.
#[derive(Clone, Debug)]
pub struct AppEntry {
    pub id: String,
    pub name: String,
    pub publisher: String,
    pub version: String,
    pub source: AppSource,
    pub install_location: String,
    pub uninstall_string: String,
    pub quiet_uninstall_string: String,
    pub package_full_name: String,
    /// Unix seconds of the last start, where known.
    pub last_used: Option<i64>,
    pub icon: String,
    pub bundle_size: u64,
    pub leftovers: Vec<LeftoverGroup>,
    /// Bundle and leftovers together.
    pub total: u64,
}

/// What leftovers are matched by.
#[derive(Clone, Debug)]
pub struct AppIdentity {
    pub display_name: String,
    pub install_folder: String,
    pub family_name: String,
    pub publisher: String,
}

// ---------------------------------------------------------------------------
// Sizes
// ---------------------------------------------------------------------------

/// The least multiple of the cluster that holds `len` bytes, as far as it fits
/// in 64 bits; without a cluster the length itself.
pub open spec fn rounded(len: int, cluster: int) -> int {
    if cluster == 0 {
        len
    } else {
        rollup::capped(((len + cluster - 1) / cluster) * cluster)
    }
}

/// Rounds a length up to whole clusters.
pub fn round_up(len: u64, cluster: u64) -> (r: u64)
    ensures
        r == rounded(len as int, cluster as int),
{
    if cluster == 0 {
        return len;
    }
    let whole: u64 = len / cluster;
    let part: u64 = len % cluster;
    proof {
        vstd::arithmetic::div_mod::lemma_fundamental_div_mod(len as int, cluster as int);
        ceil_split(len as int, cluster as int);
    }
    if part == 0 {
        len
    } else {
        match (whole + 1).checked_mul(cluster) {
            Some(x) => x,
            None => u64::MAX,
        }
    }
}

proof fn ceil_split(len: int, cluster: int)
    requires
        len >= 0,
        cluster > 0,
    ensures
        (len + cluster - 1) / cluster == (if len % cluster == 0 {
            len / cluster
        } else {
            len / cluster + 1
        }),
        len % cluster == 0 ==> (len / cluster) * cluster == len,
        len % cluster != 0 ==> len / cluster < len,
        0 <= len / cluster <= len,
{
    let q = len / cluster;
    let r = len % cluster;
    vstd::arithmetic::div_mod::lemma_fundamental_div_mod(len, cluster);
    assert(len == cluster * q + r);
    if r == 0 {
        assert((len + cluster - 1) / cluster == q) by (nonlinear_arith)
            requires
                len == cluster * q,
                cluster > 0,
        ;
        assert(q * cluster == len) by (nonlinear_arith)
            requires
                len == cluster * q,
        ;
    } else {
        assert(0 < r < cluster) by {
            vstd::arithmetic::div_mod::lemma_mod_bound(len, cluster);
        }
        assert((len + cluster - 1) / cluster == q + 1) by (nonlinear_arith)
            requires
                len == cluster * q + r,
                0 < r < cluster,
                cluster > 0,
        ;
        assert(q < len) by (nonlinear_arith)
            requires
                len == cluster * q + r,
                0 < r < cluster,
                len >= 0,
        ;
    }
    assert(0 <= q <= len) by (nonlinear_arith)
        requires
            len == cluster * q + r,
            0 <= r < cluster,
            cluster > 0,
            len >= 0,
    {
        vstd::arithmetic::div_mod::lemma_mod_bound(len, cluster);
    }
}

/// A rounded length is the least whole number of clusters that holds it, where
/// that fits in 64 bits.
pub proof fn rounding_is_tight(len: int, cluster: int)
    requires
        0 <= len,
        0 < cluster,
        ((len + cluster - 1) / cluster) * cluster <= u64::MAX,
    ensures
        rounded(len, cluster) % cluster == 0,
        len <= rounded(len, cluster) < len + cluster,
{
    ceil_split(len, cluster);
    let q = (len + cluster - 1) / cluster;
    vstd::arithmetic::div_mod::lemma_fundamental_div_mod(len, cluster);
    vstd::arithmetic::div_mod::lemma_mod_bound(len, cluster);
    vstd::arithmetic::div_mod::lemma_mod_multiples_basic(q, cluster);
    let w = len / cluster;
    assert(cluster * w == w * cluster) by (nonlinear_arith);
    assert((w + 1) * cluster == w * cluster + cluster) by (nonlinear_arith);
}

/// Allocated bytes of some files.
pub open spec fn allocated(lens: Seq<u64>, cluster: int) -> int
    decreases lens.len(),
{
    if lens.len() == 0 {
        0
    } else {
        allocated(lens.drop_last(), cluster) + rounded(lens.last() as int, cluster)
    }
}

proof fn allocated_is_nat(lens: Seq<u64>, cluster: int)
    requires
        cluster >= 0,
    ensures
        allocated(lens, cluster) >= 0,
    decreases lens.len(),
{
    if lens.len() > 0 {
        allocated_is_nat(lens.drop_last(), cluster);
        rounded_is_nat(lens.last() as int, cluster);
    }
}

proof fn rounded_is_nat(len: int, cluster: int)
    requires
        len >= 0,
        cluster >= 0,
    ensures
        rounded(len, cluster) >= 0,
{
    if cluster > 0 {
        ceil_split(len, cluster);
        let q = (len + cluster - 1) / cluster;
        assert(q * cluster >= 0) by (nonlinear_arith)
            requires
                q >= 0,
                cluster > 0,
        ;
    }
}

/// Allocated bytes of the files that a walk of one directory tree met.
pub fn allocated_size(lens: &[u64], cluster: u32) -> (r: u64)
    ensures
        r == rollup::capped(allocated(lens@, cluster as int)),
{
    let mut total: u64 = 0;
    let mut i: usize = 0;
    while i < lens.len()
        invariant
            i <= lens.len(),
            total == rollup::capped(allocated(lens@.take(i as int), cluster as int)),
        decreases lens.len() - i,
    {
        proof {
            allocated_is_nat(lens@.take(i as int), cluster as int);
            rounded_is_nat(lens@[i as int] as int, cluster as int);
            assert(lens@.take(i + 1).drop_last() =~= lens@.take(i as int));
        }
        total = total.saturating_add(round_up(lens[i], cluster as u64));
        i += 1;
    }
    assert(lens@.take(i as int) =~= lens@);
    total
}

// ---------------------------------------------------------------------------
// Walking a directory tree
// ---------------------------------------------------------------------------

/// What one entry of a directory is.
#[derive(Clone, Copy, Debug, PartialEq, Eq, Structural)]
pub enum EntryKind {
    /// A link; it is never followed and takes no space.
    Link,
    Folder,
    /// A file and its length.
    File(u64),
}

/// One entry of a directory.
#[derive(Clone, Debug)]
pub struct WalkEntry {
    pub name: String,
    pub path: String,
    pub kind: EntryKind,
}

/// A walk that adds up what a directory tree takes.
///
/// The caller reads the directories that [`SizeWalk::next_folder`] names and
/// hands their entries to [`SizeWalk::take`].
#[derive(Clone, Debug)]
pub struct SizeWalk {
    /// Directories that are still to be read.
    pub queue: Vec<String>,
    pub total: u64,
    pub cluster: u32,
}

/// The paths of the folders among the entries, in order.
pub open spec fn folders_in(entries: Seq<WalkEntry>) -> Seq<Seq<char>>
    decreases entries.len(),
{
    if entries.len() == 0 {
        Seq::empty()
    } else {
        let rest = folders_in(entries.drop_last());
        if entries.last().kind == EntryKind::Folder {
            rest.push(entries.last().path@)
        } else {
            rest
        }
    }
}

/// The lengths of the files among the entries, in order.
pub open spec fn lengths_in(entries: Seq<WalkEntry>) -> Seq<u64>
    decreases entries.len(),
{
    if entries.len() == 0 {
        Seq::empty()
    } else {
        let rest = lengths_in(entries.drop_last());
        match entries.last().kind {
            EntryKind::File(n) => rest.push(n),
            _ => rest,
        }
    }
}

impl SizeWalk {
    /// A walk from a path, by what it is: a folder is read, a file takes whole
    /// clusters, a link or nothing takes no space.
    pub fn start(path: &str, what: Option<EntryKind>, cluster: u32) -> (r: SizeWalk)
        ensures
            r.cluster == cluster,
            match what {
                Some(EntryKind::Folder) => scan::strings(r.queue@) == seq![path@] && r.total == 0,
                Some(EntryKind::File(n)) => r.queue@.len() == 0 && r.total == rounded(
                    n as int,
                    cluster as int,
                ),
                _ => r.queue@.len() == 0 && r.total == 0,
            },
    {
        let mut queue: Vec<String> = Vec::new();
        let mut total: u64 = 0;
        match what {
            Some(EntryKind::Folder) => {
                queue.push(path.to_owned());
                assert(scan::strings(queue@) =~= seq![path@]);
            },
            Some(EntryKind::File(n)) => {
                total = round_up(n, cluster as u64);
            },
            _ => {},
        }
        SizeWalk { queue, total, cluster }
    }

    /// The next directory to read; `None` at the end of the walk.
    pub fn next_folder(&mut self) -> (r: Option<String>)
        ensures
            final(self).total == old(self).total,
            final(self).cluster == old(self).cluster,
            match r {
                Some(p) => old(self).queue@.len() > 0 && p == old(self).queue@.last()
                    && final(self).queue@ == old(self).queue@.drop_last(),
                None => old(self).queue@.len() == 0 && final(self).queue@ == old(self).queue@,
            },
    {
        self.queue.pop()
    }

    /// Takes in the entries of one directory: files are added up in whole
    /// clusters, folders are read later, links count for nothing.
    pub fn take(&mut self, entries: &[WalkEntry])
        ensures
            final(self).cluster == old(self).cluster,
            final(self).total == rollup::capped(
                old(self).total + allocated(lengths_in(entries@), old(self).cluster as int),
            ),
            scan::strings(final(self).queue@) == scan::strings(old(self).queue@) + folders_in(
                entries@,
            ),
    {
        let ghost first = scan::strings(self.queue@);
        let mut i: usize = 0;
        assert(first + folders_in(entries@.take(0)) =~= first);
        while i < entries.len()
            invariant
                i <= entries.len(),
                self.cluster == old(self).cluster,
                first == scan::strings(old(self).queue@),
                self.total == rollup::capped(
                    old(self).total + allocated(
                        lengths_in(entries@.take(i as int)),
                        self.cluster as int,
                    ),
                ),
                scan::strings(self.queue@) == first + folders_in(entries@.take(i as int)),
            decreases entries.len() - i,
        {
            let ghost head = entries@.take(i as int);
            let ghost more = entries@.take(i + 1);
            assert(more.drop_last() =~= head);
            assert(more.last() == entries@[i as int]);
            match entries[i].kind {
                EntryKind::Link => {},
                EntryKind::Folder => {
                    let ghost before = scan::strings(self.queue@);
                    self.queue.push(entries[i].path.clone());
                    assert(scan::strings(self.queue@) =~= before.push(entries@[i as int].path@));
                    assert(first + folders_in(head).push(entries@[i as int].path@) =~= (first
                        + folders_in(head)).push(entries@[i as int].path@));
                },
                EntryKind::File(n) => {
                    proof {
                        allocated_is_nat(lengths_in(head), self.cluster as int);
                        rounded_is_nat(n as int, self.cluster as int);
                        assert(lengths_in(more).drop_last() =~= lengths_in(head));
                        assert(lengths_in(more).last() == n);
                    }
                    self.total = self.total.saturating_add(round_up(n, self.cluster as u64));
                },
            }
            i += 1;
        }
        assert(entries@.take(i as int) =~= entries@);
    }
}

/// The folders directly below a leftover root, by name and path, in order; links
/// and files are left out.
pub open spec fn candidates_in(entries: Seq<WalkEntry>) -> Seq<(Seq<char>, Seq<char>)>
    decreases entries.len(),
{
    if entries.len() == 0 {
        Seq::empty()
    } else {
        let rest = candidates_in(entries.drop_last());
        if entries.last().kind == EntryKind::Folder {
            rest.push((entries.last().name@, entries.last().path@))
        } else {
            rest
        }
    }
}

/// The folders directly below a leftover root.
pub fn root_candidates(entries: &[WalkEntry]) -> (r: Vec<(String, String)>)
    ensures
        crate::sidebar::pair_views(r@) == candidates_in(entries@),
{
    let mut out: Vec<(String, String)> = Vec::new();
    let mut i: usize = 0;
    assert(crate::sidebar::pair_views(out@) =~= candidates_in(entries@.take(0)));
    while i < entries.len()
        invariant
            i <= entries.len(),
            crate::sidebar::pair_views(out@) == candidates_in(entries@.take(i as int)),
        decreases entries.len() - i,
    {
        assert(entries@.take(i + 1).drop_last() =~= entries@.take(i as int));
        let ghost before = crate::sidebar::pair_views(out@);
        if entries[i].kind == EntryKind::Folder {
            out.push((entries[i].name.clone(), entries[i].path.clone()));
            assert(crate::sidebar::pair_views(out@) =~= before.push(
                (entries@[i as int].name@, entries@[i as int].path@),
            ));
        }
        i += 1;
    }
    assert(entries@.take(i as int) =~= entries@);
    out
}

// ---------------------------------------------------------------------------
// Leftover roots
// ---------------------------------------------------------------------------

/// The label of each leftover root.
pub open spec fn root_label(i: int) -> Seq<char> {
    if i == 0 {
        "Local AppData"@
    } else if i == 1 {
        "Roaming AppData"@
    } else if i == 2 {
        "LocalLow AppData"@
    } else if i == 3 {
        "ProgramData"@
    } else {
        "Store package data"@
    }
}

/// The labels of the leftover roots, by index.
pub fn root_labels() -> (r: Vec<&'static str>)
    ensures
        r@.len() == 5,
        forall|i: int| 0 <= i < 5 ==> (#[trigger] r@[i])@ == root_label(i),
{
    vec![
        "Local AppData",
        "Roaming AppData",
        "LocalLow AppData",
        "ProgramData",
        "Store package data",
    ]
}

/// The path of one leftover root, where it exists.
pub open spec fn root_path(k: KnownFolders, i: int) -> Option<Seq<char>> {
    if i == 0 {
        scan::text_of(k.local)
    } else if i == 1 {
        scan::text_of(k.roaming)
    } else if i == 2 {
        match (k.local, k.profile) {
            (Some(_), Some(p)) => Some(p@ + "\\AppData\\LocalLow"@),
            _ => None,
        }
    } else if i == 3 {
        scan::text_of(k.program_data)
    } else {
        match k.local {
            Some(l) => Some(l@ + "\\Packages"@),
            None => None,
        }
    }
}

/// The existing roots among the first `n`, with their indices.
pub open spec fn roots_upto(k: KnownFolders, n: nat) -> Seq<(int, Seq<char>)>
    decreases n,
{
    if n == 0 {
        Seq::empty()
    } else {
        let rest = roots_upto(k, (n - 1) as nat);
        match root_path(k, n - 1) {
            Some(p) => rest.push((n - 1, p)),
            None => rest,
        }
    }
}

/// The contents of a list of indexed paths.
pub open spec fn indexed_views(s: Seq<(usize, String)>) -> Seq<(int, Seq<char>)> {
    s.map_values(|p: (usize, String)| (p.0 as int, p.1@))
}

fn push_root(out: &mut Vec<(usize, String)>, i: usize, p: Option<String>)
    ensures
        indexed_views(final(out)@) == (match p {
            Some(s) => indexed_views(old(out)@).push((i as int, s@)),
            None => indexed_views(old(out)@),
        }),
{
    let ghost before = out@;
    if let Some(s) = p {
        let ghost v = s@;
        out.push((i, s));
        assert(indexed_views(out@) =~= indexed_views(before).push((i as int, v)));
    }
}

/// The leftover roots of the current user, in index order: local, roaming,
/// LocalLow, ProgramData, Store packages.
pub fn leftover_roots(known: &KnownFolders) -> (r: Vec<(usize, String)>)
    ensures
        indexed_views(r@) == roots_upto(*known, 5),
{
    let mut out: Vec<(usize, String)> = Vec::new();
    assert(indexed_views(out@) =~= roots_upto(*known, 0));
    let low: Option<String> = match (&known.local, &known.profile) {
        (Some(_), Some(p)) => Some(text::join2(p.as_str(), "\\AppData\\LocalLow")),
        _ => None,
    };
    let packages: Option<String> = match &known.local {
        Some(l) => Some(text::join2(l.as_str(), "\\Packages")),
        None => None,
    };
    push_root(&mut out, 0, copy_opt(&known.local));
    assert(indexed_views(out@) == roots_upto(*known, 1));
    push_root(&mut out, 1, copy_opt(&known.roaming));
    assert(indexed_views(out@) == roots_upto(*known, 2));
    push_root(&mut out, 2, low);
    assert(indexed_views(out@) == roots_upto(*known, 3));
    push_root(&mut out, 3, copy_opt(&known.program_data));
    assert(indexed_views(out@) == roots_upto(*known, 4));
    push_root(&mut out, 4, packages);
    out
}

fn copy_opt(v: &Option<String>) -> (r: Option<String>)
    ensures
        scan::text_of(r) == scan::text_of(*v),
{
    match v {
        Some(s) => Some(s.clone()),
        None => None,
    }
}

// ---------------------------------------------------------------------------
// Entries
// ---------------------------------------------------------------------------

/// The text behind the last separator.
pub open spec fn after_sep(s: Seq<char>) -> Seq<char>
    decreases s.len(),
{
    if s.len() == 0 || scan::is_sep(s.last()) {
        Seq::empty()
    } else {
        after_sep(s.drop_last()).push(s.last())
    }
}

/// The last non-empty segment of a path; empty where there is none.
pub open spec fn last_segment(s: Seq<char>) -> Seq<char> {
    after_sep(scan::no_tail_seps(s, true))
}

/// The last non-empty segment of an install location.
pub fn install_folder(location: &str) -> (r: String)
    ensures
        r@ == last_segment(location@),
{
    let cs = text::chars_of(location);
    let mut to: usize = cs.len();
    assert(cs@.take(to as int) =~= cs@);
    while to > 0 && (cs[to - 1] == '\\' || cs[to - 1] == '/')
        invariant
            to <= cs.len(),
            scan::no_tail_seps(cs@, true) == scan::no_tail_seps(cs@.take(to as int), true),
        decreases to,
    {
        assert(cs@.take(to as int).drop_last() =~= cs@.take(to - 1));
        to -= 1;
    }
    let ghost trimmed = cs@.take(to as int);
    assert(scan::no_tail_seps(cs@, true) == trimmed);
    let mut from: usize = to;
    assert(after_sep(trimmed) =~= after_sep(trimmed.take(from as int)) + cs@.subrange(
        from as int,
        to as int,
    )) by {
        assert(trimmed.take(from as int) =~= trimmed);
    }
    while from > 0 && !(cs[from - 1] == '\\' || cs[from - 1] == '/')
        invariant
            from <= to <= cs.len(),
            trimmed == cs@.take(to as int),
            after_sep(trimmed) == after_sep(trimmed.take(from as int)) + cs@.subrange(
                from as int,
                to as int,
            ),
        decreases from,
    {
        proof {
            let head = trimmed.take(from as int);
            assert(head.last() == cs@[from - 1]);
            assert(head.drop_last() =~= trimmed.take(from - 1));
            assert(after_sep(trimmed.take(from - 1)).push(cs@[from - 1]) + cs@.subrange(
                from as int,
                to as int,
            ) =~= after_sep(trimmed.take(from - 1)) + cs@.subrange(from - 1, to as int));
        }
        from -= 1;
    }
    let kept = text::slice_chars(cs.as_slice(), from, to);
    proof {
        if from > 0 {
            assert(trimmed.take(from as int).last() == cs@[from - 1]);
        }
        assert(after_sep(trimmed.take(from as int)) =~= Seq::empty());
        assert(after_sep(trimmed) =~= kept@);
    }
    text::string_of(kept.as_slice())
}

impl AppEntry {
    /// The entry of a registry record before sizes are known.
    pub open spec fn seeds_registry(&self, r: RawRegistryApp, last_used: Option<i64>) -> bool {
        &&& self.id == r.id
        &&& self.name == r.name
        &&& self.publisher == r.publisher
        &&& self.version == r.version
        &&& self.source == AppSource::Registry
        &&& self.install_location == r.install_location
        &&& self.uninstall_string == r.uninstall_string
        &&& self.quiet_uninstall_string == r.quiet_uninstall_string
        &&& self.package_full_name@.len() == 0
        &&& self.last_used == last_used
        &&& self.is_unmeasured()
    }

    /// The entry of a Store package before sizes are known.
    pub open spec fn seeds_msix(&self, m: RawMsixApp) -> bool {
        &&& self.id == m.id
        &&& self.name == m.name
        &&& self.publisher == m.publisher
        &&& self.version == m.version
        &&& self.source == AppSource::Msix
        &&& self.install_location == m.install_location
        &&& self.uninstall_string@.len() == 0
        &&& self.quiet_uninstall_string@.len() == 0
        &&& self.package_full_name == m.id
        &&& self.last_used is None
        &&& self.is_unmeasured()
    }

    /// No icon, sizes or leftovers yet.
    pub open spec fn is_unmeasured(&self) -> bool {
        &&& self.icon@.len() == 0
        &&& self.bundle_size == 0
        &&& self.leftovers@.len() == 0
        &&& self.total == 0
    }
}

/// The entry and identity of a registry record.
pub fn seed_registry(r: &RawRegistryApp, last_used: Option<i64>) -> (e: (AppEntry, AppIdentity))
    ensures
        e.0.seeds_registry(*r, last_used),
        e.1.display_name == r.name,
        e.1.install_folder@ == last_segment(r.install_location@),
        e.1.family_name@.len() == 0,
        e.1.publisher == r.publisher,
{
    (
        AppEntry {
            id: r.id.clone(),
            name: r.name.clone(),
            publisher: r.publisher.clone(),
            version: r.version.clone(),
            source: AppSource::Registry,
            install_location: r.install_location.clone(),
            uninstall_string: r.uninstall_string.clone(),
            quiet_uninstall_string: r.quiet_uninstall_string.clone(),
            package_full_name: String::new(),
            last_used,
            icon: String::new(),
            bundle_size: 0,
            leftovers: Vec::new(),
            total: 0,
        },
        AppIdentity {
            display_name: r.name.clone(),
            install_folder: install_folder(r.install_location.as_str()),
            family_name: String::new(),
            publisher: r.publisher.clone(),
        },
    )
}

/// The entry and identity of a Store package, which has no record of its last
/// start.
pub fn seed_msix(m: &RawMsixApp) -> (e: (AppEntry, AppIdentity))
    ensures
        e.0.seeds_msix(*m),
        e.1.display_name == m.name,
        e.1.install_folder@ == last_segment(m.install_location@),
        e.1.family_name == m.family_name,
        e.1.publisher == m.publisher,
{
    (
        AppEntry {
            id: m.id.clone(),
            name: m.name.clone(),
            publisher: m.publisher.clone(),
            version: m.version.clone(),
            source: AppSource::Msix,
            install_location: m.install_location.clone(),
            uninstall_string: String::new(),
            quiet_uninstall_string: String::new(),
            package_full_name: m.id.clone(),
            last_used: None,
            icon: String::new(),
            bundle_size: 0,
            leftovers: Vec::new(),
            total: 0,
        },
        AppIdentity {
            display_name: m.name.clone(),
            install_folder: install_folder(m.install_location.as_str()),
            family_name: m.family_name.clone(),
            publisher: m.publisher.clone(),
        },
    )
}

/// The entries of all sources: the registry's in order, then the Store's.
pub fn seed_all(
    registry: &Vec<RawRegistryApp>,
    last_used: &Vec<Option<i64>>,
    msix: &Vec<RawMsixApp>,
) -> (out: Vec<(AppEntry, AppIdentity)>)
    requires
        last_used@.len() == registry@.len(),
        registry@.len() + msix@.len() <= usize::MAX,
    ensures
        out@.len() == registry@.len() + msix@.len(),
        forall|i: int|
            0 <= i < registry@.len() ==> {
                let r = registry@[i];
                &&& (#[trigger] out@[i]).0.seeds_registry(r, last_used@[i])
                &&& out@[i].1.display_name == r.name
                &&& out@[i].1.install_folder@ == last_segment(r.install_location@)
                &&& out@[i].1.family_name@.len() == 0
                &&& out@[i].1.publisher == r.publisher
            },
        forall|i: int|
            registry@.len() <= i < out@.len() ==> {
                let m = msix@[i - registry@.len()];
                &&& (#[trigger] out@[i]).0.seeds_msix(m)
                &&& out@[i].1.display_name == m.name
                &&& out@[i].1.install_folder@ == last_segment(m.install_location@)
                &&& out@[i].1.family_name == m.family_name
                &&& out@[i].1.publisher == m.publisher
            },
{
    let mut out: Vec<(AppEntry, AppIdentity)> = Vec::new();
    let mut i: usize = 0;
    while i < registry.len()
        invariant
            i <= registry.len(),
            last_used@.len() == registry@.len(),
            out@.len() == i,
            forall|k: int|
                0 <= k < i ==> {
                    let r = registry@[k];
                    &&& (#[trigger] out@[k]).0.seeds_registry(r, last_used@[k])
                    &&& out@[k].1.display_name == r.name
                    &&& out@[k].1.install_folder@ == last_segment(r.install_location@)
                    &&& out@[k].1.family_name@.len() == 0
                    &&& out@[k].1.publisher == r.publisher
                },
        decreases registry.len() - i,
    {
        let e = seed_registry(&registry[i], last_used[i]);
        out.push(e);
        i += 1;
    }
    let ghost first = out@;
    let mut j: usize = 0;
    while j < msix.len()
        invariant
            j <= msix.len(),
            registry@.len() == first.len(),
            out@.len() == first.len() + j,
            forall|k: int| 0 <= k < first.len() ==> #[trigger] out@[k] == first[k],
            forall|k: int|
                first.len() <= k < out@.len() ==> {
                    let m = msix@[k - first.len()];
                    &&& (#[trigger] out@[k]).0.seeds_msix(m)
                    &&& out@[k].1.display_name == m.name
                    &&& out@[k].1.install_folder@ == last_segment(m.install_location@)
                    &&& out@[k].1.family_name == m.family_name
                    &&& out@[k].1.publisher == m.publisher
                },
        decreases msix.len() - j,
    {
        let e = seed_msix(&msix[j]);
        out.push(e);
        j += 1;
    }
    out
}

/// The icon path of the last record with the id; empty where there is none.
pub open spec fn icon_path(registry: Seq<RawRegistryApp>, id: Seq<char>) -> Seq<char>
    decreases registry.len(),
{
    if registry.len() == 0 {
        Seq::empty()
    } else if registry.last().id@ == id {
        registry.last().display_icon@
    } else {
        icon_path(registry.drop_last(), id)
    }
}

/// What an application's icon is read from: of a registered one the icon path,
/// or the install location where it has none; of a Store package nothing.
pub fn icon_ref(app: &AppEntry, registry: &Vec<RawRegistryApp>) -> (r: Option<String>)
    ensures
        app.source == AppSource::Msix ==> r is None,
        app.source == AppSource::Registry ==> (r matches Some(p) && p@ == (if icon_path(
            registry@,
            app.id@,
        ).len() > 0 {
            icon_path(registry@, app.id@)
        } else {
            app.install_location@
        })),
{
    if let AppSource::Msix = app.source {
        return None;
    }
    let mut i: usize = registry.len();
    assert(registry@.take(i as int) =~= registry@);
    while i > 0
        invariant
            i <= registry.len(),
            app.source != AppSource::Msix,
            icon_path(registry@, app.id@) == icon_path(registry@.take(i as int), app.id@),
        decreases i,
    {
        assert(registry@.take(i as int).drop_last() =~= registry@.take(i - 1));
        assert(registry@.take(i as int).last() == registry@[i - 1]);
        if text::same_str(registry[i - 1].id.as_str(), app.id.as_str()) {
            if registry[i - 1].display_icon.as_str().is_empty() {
                return Some(app.install_location.clone());
            }
            return Some(registry[i - 1].display_icon.clone());
        }
        i -= 1;
    }
    Some(app.install_location.clone())
}

// ---------------------------------------------------------------------------
// Footprints
// ---------------------------------------------------------------------------

/// Bytes of all leftovers.
pub open spec fn leftover_bytes(g: Seq<LeftoverGroup>) -> int
    decreases g.len(),
{
    if g.len() == 0 {
        0
    } else {
        leftover_bytes(g.drop_last()) + g.last().size
    }
}

proof fn leftover_bytes_is_nat(g: Seq<LeftoverGroup>)
    ensures
        leftover_bytes(g) >= 0,
    decreases g.len(),
{
    if g.len() > 0 {
        leftover_bytes_is_nat(g.drop_last());
    }
}

/// The footprint of an application.
pub open spec fn footprint(a: AppEntry) -> int {
    rollup::capped(a.bundle_size + leftover_bytes(a.leftovers@))
}

/// Bundle and leftovers together.
fn measure(a: &AppEntry) -> (r: u64)
    ensures
        r == footprint(*a),
{
    let mut total: u64 = a.bundle_size;
    let mut i: usize = 0;
    while i < a.leftovers.len()
        invariant
            i <= a.leftovers.len(),
            total == rollup::capped(a.bundle_size + leftover_bytes(a.leftovers@.take(i as int))),
        decreases a.leftovers.len() - i,
    {
        proof {
            leftover_bytes_is_nat(a.leftovers@.take(i as int));
            assert(a.leftovers@.take(i + 1).drop_last() =~= a.leftovers@.take(i as int));
        }
        total = total.saturating_add(a.leftovers[i].size);
        i += 1;
    }
    assert(a.leftovers@.take(i as int) =~= a.leftovers@);
    total
}

/// The footprints with their positions.
pub open spec fn footprints(apps: Seq<AppEntry>) -> Seq<(u64, u32)> {
    Seq::new(apps.len(), |i: int| (footprint(apps[i]) as u64, i as u32))
}

/// The positions of the applications to list: the largest footprint first,
/// equal ones in their order, at most [`APPS_CAP`].
pub open spec fn listed_positions(apps: Seq<AppEntry>) -> Seq<u32> {
    shares::first_n(order::ranking(footprints(apps)), APPS_CAP as int).map_values(
        |p: (u64, u32)| p.1,
    )
}

/// The list shows the applications by footprint.
pub open spec fn lists(r: Seq<AppEntry>, apps: Seq<AppEntry>) -> bool {
    &&& r.len() == listed_positions(apps).len()
    &&& forall|i: int|
        0 <= i < r.len() ==> {
            let a = apps[listed_positions(apps)[i] as int];
            #[trigger] r[i] == (AppEntry { total: footprint(a) as u64, ..a })
        }
}

/// Fills in the footprints and lists the applications by them.
pub fn finish_list(apps: Vec<AppEntry>) -> (r: Vec<AppEntry>)
    requires
        apps@.len() <= u32::MAX,
    ensures
        lists(r@, apps@),
{
    let mut pairs: Vec<(u64, u32)> = Vec::new();
    let mut i: usize = 0;
    while i < apps.len()
        invariant
            i <= apps.len(),
            apps@.len() <= u32::MAX,
            pairs@ == footprints(apps@).take(i as int),
        decreases apps.len() - i,
    {
        let t = measure(&apps[i]);
        pairs.push((t, i as u32));
        assert(pairs@ =~= footprints(apps@).take(i + 1));
        i += 1;
    }
    assert(pairs@ =~= footprints(apps@));
    let ranking = order::rank(pairs.as_slice());
    let ghost full = order::ranking(footprints(apps@));
    let ghost wanted = listed_positions(apps@);
    proof {
        order::ranking_is_ranked(footprints(apps@));
        assert(footprints(apps@).no_duplicates());
        assert forall|k: int| 0 <= k < full.len() implies (#[trigger] full[k]).1 < apps@.len()
            && full[k].0 == footprint(apps@[full[k].1 as int]) by {
            assert(full.contains(full[k]));
            let q = footprints(apps@).index_of(full[k]);
            assert(footprints(apps@)[q] == full[k]);
            footprint_fits(apps@[q]);
        }
    }
    let mut positions: Vec<u32> = Vec::new();
    let mut sizes: Vec<u64> = Vec::new();
    let mut k: usize = 0;
    while k < ranking.len() && k < APPS_CAP
        invariant
            k <= ranking.len(),
            k <= APPS_CAP,
            ranking@ == full,
            positions@.len() == k,
            sizes@.len() == k,
            forall|q: int|
                0 <= q < k ==> #[trigger] positions@[q] == full[q].1 && sizes@[q] == full[q].0,
        decreases ranking.len() - k,
    {
        positions.push(ranking[k].1);
        sizes.push(ranking[k].0);
        k += 1;
    }
    proof {
        assert(positions@ =~= wanted);
        assert forall|a: int, b: int|
            0 <= a < positions@.len() && 0 <= b < positions@.len() && a
                != b implies positions@[a] != positions@[b] by {
            assert(positions@[a] == full[a].1 && positions@[b] == full[b].1);
            if full[a].1 == full[b].1 {
                assert(full[a] == full[b]);
            }
        }
        assert forall|q: int| 0 <= q < positions@.len() implies (#[trigger] positions@[q])
            < apps@.len() by {
            assert(full[q].1 < apps@.len());
        }
    }
    let ghost all = apps@;
    let mut out = order::pick(apps, &positions);
    let ghost picked = out@;
    let mut m: usize = 0;
    while m < out.len()
        invariant
            m <= out.len(),
            out@.len() == picked.len(),
            sizes@.len() == picked.len(),
            forall|q: int|
                0 <= q < m ==> #[trigger] out@[q] == (AppEntry { total: sizes@[q], ..picked[q] }),
            forall|q: int| m <= q < out@.len() ==> #[trigger] out@[q] == picked[q],
        decreases out.len() - m,
    {
        let t: u64 = sizes[m];
        out[m].total = t;
        m += 1;
    }
    proof {
        assert forall|q: int| 0 <= q < out@.len() implies {
            let a = all[wanted[q] as int];
            #[trigger] out@[q] == (AppEntry { total: footprint(a) as u64, ..a })
        } by {
            assert(positions@[q] == full[q].1);
            assert(picked[q] == all[positions@[q] as int]);
            assert(full[q].0 == footprint(all[full[q].1 as int]));
        }
    }
    out
}

proof fn footprint_fits(a: AppEntry)
    ensures
        0 <= footprint(a) <= u64::MAX,
{
    leftover_bytes_is_nat(a.leftovers@);
}

/// The list stands largest footprint first.
pub proof fn list_stands_largest_first(apps: Seq<AppEntry>, i: int, j: int)
    requires
        apps.len() <= u32::MAX,
        0 <= i < j < listed_positions(apps).len(),
    ensures
        footprint(apps[listed_positions(apps)[i] as int]) >= footprint(
            apps[listed_positions(apps)[j] as int],
        ),
        listed_positions(apps).len() <= APPS_CAP,
{
    let f = footprints(apps);
    let r = order::ranking(f);
    order::ranking_is_ranked(f);
    assert(order::before(r[i], r[j]));
    assert(r.contains(r[i]) && r.contains(r[j]));
    let a = f.index_of(r[i]);
    let b = f.index_of(r[j]);
    assert(f[a] == r[i] && f[b] == r[j]);
    footprint_fits(apps[a]);
    footprint_fits(apps[b]);
    assert(listed_positions(apps)[i] == r[i].1);
    assert(listed_positions(apps)[j] == r[j].1);
}

/// What was found on disk for one application.
#[derive(Clone, Debug)]
pub struct AppFacts {
    /// Bytes at the install location.
    pub bundle_size: u64,
    pub leftovers: Vec<LeftoverGroup>,
    /// The icon read from [`icon_ref`], where that gave one.
    pub icon: Option<String>,
}

/// An entry with what was found: the size counts where there is an install
/// location, the icon on registry entries only.
pub open spec fn fills(a: AppEntry, seed: AppEntry, f: AppFacts) -> bool {
    &&& a.id == seed.id
    &&& a.name == seed.name
    &&& a.publisher == seed.publisher
    &&& a.version == seed.version
    &&& a.source == seed.source
    &&& a.install_location == seed.install_location
    &&& a.uninstall_string == seed.uninstall_string
    &&& a.quiet_uninstall_string == seed.quiet_uninstall_string
    &&& a.package_full_name == seed.package_full_name
    &&& a.last_used == seed.last_used
    &&& a.total == seed.total
    &&& a.leftovers == f.leftovers
    &&& a.bundle_size == (if seed.install_location@.len() > 0 {
        f.bundle_size
    } else {
        seed.bundle_size
    })
    &&& a.icon@ == (if seed.source == AppSource::Registry {
        match f.icon {
            Some(i) => i@,
            None => Seq::empty(),
        }
    } else {
        seed.icon@
    })
}

/// Fills an entry in.
pub fn fill_entry(seed: AppEntry, f: AppFacts) -> (r: AppEntry)
    ensures
        fills(r, seed, f),
{
    let mut app = seed;
    if !app.install_location.as_str().is_empty() {
        app.bundle_size = f.bundle_size;
    }
    app.leftovers = f.leftovers;
    if let AppSource::Registry = app.source {
        app.icon = match f.icon {
            Some(i) => i,
            None => String::new(),
        };
    }
    app
}

/// Each application is its seed with what was found for it.
pub open spec fn all_filled(
    apps: Seq<AppEntry>,
    seeds: Seq<(AppEntry, AppIdentity)>,
    facts: Seq<AppFacts>,
) -> bool {
    apps.len() == seeds.len() && forall|i: int|
        0 <= i < apps.len() ==> fills(#[trigger] apps[i], seeds[i].0, facts[i])
}

/// Turns the seeded entries and what was found for each into the list of
/// applications, the largest footprint first.
pub fn enumerate_apps(seeds: Vec<(AppEntry, AppIdentity)>, facts: Vec<AppFacts>) -> (r: Vec<
    AppEntry,
>)
    requires
        seeds@.len() <= u32::MAX,
        facts@.len() == seeds@.len(),
    ensures
        exists|apps: Seq<AppEntry>|
            #[trigger] all_filled(apps, seeds@, facts@) && lists(r@, apps),
{
    let ghost all = seeds@;
    let ghost found = facts@;
    let ghost n = all.len() as int;
    let mut seeds = seeds;
    let mut facts = facts;
    let mut back: Vec<AppEntry> = Vec::new();
    while seeds.len() > 0
        invariant
            facts@.len() == seeds@.len(),
            found.len() == n,
            all.len() == n,
            seeds@ == all.take(seeds@.len() as int),
            facts@ == found.take(seeds@.len() as int),
            back@.len() + seeds@.len() == n,
            forall|k: int|
                0 <= k < back@.len() ==> fills(
                    #[trigger] back@[k],
                    all[n - 1 - k].0,
                    found[n - 1 - k],
                ),
        decreases seeds@.len(),
    {
        let ghost at = seeds@.len() - 1;
        let (seed, _) = seeds.pop().unwrap();
        let fact = facts.pop().unwrap();
        assert(seed == all[at].0);
        assert(fact == found[at]);
        assert(seeds@ =~= all.take(at));
        assert(facts@ =~= found.take(at));
        back.push(fill_entry(seed, fact));
    }
    let mut apps: Vec<AppEntry> = Vec::new();
    while back.len() > 0
        invariant
            found.len() == n,
            all.len() == n,
            back@.len() + apps@.len() == n,
            forall|k: int|
                0 <= k < back@.len() ==> fills(
                    #[trigger] back@[k],
                    all[n - 1 - k].0,
                    found[n - 1 - k],
                ),
            forall|k: int|
                0 <= k < apps@.len() ==> fills(#[trigger] apps@[k], all[k].0, found[k]),
        decreases back@.len(),
    {
        let ghost last = back@.len() - 1;
        let ghost before = back@;
        assert(fills(before[last], all[n - 1 - last].0, found[n - 1 - last]));
        let app = back.pop().unwrap();
        apps.push(app);
    }
    assert(all_filled(apps@, all, found));
    finish_list(apps)
}

// ---------------------------------------------------------------------------
// Cache
// ---------------------------------------------------------------------------

/// One snapshot of the list, kept until it is dropped.
#[derive(Debug)]
pub struct AppsCache {
    pub done: Option<Vec<AppEntry>>,
    /// Someone is enumerating.
    pub inflight: bool,
}

/// What a request for the list has to do.
#[derive(Clone, Copy, Debug, PartialEq, Eq, Structural)]
pub enum Claim {
    /// Answer with the snapshot.
    Serve,
    /// Enumerate, then report with [`AppsCache::complete`].
    Own,
    /// Enumerate without touching the cache.
    Compute,
}

/// An empty cache.
pub fn apps_cache() -> (r: AppsCache)
    ensures
        r.done is None,
        !r.inflight,
{
    AppsCache { done: None, inflight: false }
}

impl AppsCache {
    /// Drops the snapshot.
    pub fn clear(&mut self)
        ensures
            final(self).done is None,
            final(self).inflight == old(self).inflight,
    {
        self.done = None;
    }

    /// Takes up a request: a snapshot is served; else the first request owns the
    /// enumeration and later ones compute for themselves.
    pub fn claim(&mut self, refresh: bool) -> (r: Claim)
        ensures
            final(self).done == (if refresh {
                None
            } else {
                old(self).done
            }),
            r == (if final(self).done is Some {
                Claim::Serve
            } else if old(self).inflight {
                Claim::Compute
            } else {
                Claim::Own
            }),
            final(self).inflight == (old(self).inflight || r == Claim::Own),
    {
        if refresh {
            self.done = None;
        }
        if self.done.is_some() {
            return Claim::Serve;
        }
        if self.inflight {
            return Claim::Compute;
        }
        self.inflight = true;
        Claim::Own
    }

    /// Ends an owned enumeration: the slot is free again whatever came out, and
    /// a result becomes the snapshot.
    pub fn complete(&mut self, result: Option<Vec<AppEntry>>)
        ensures
            !final(self).inflight,
            final(self).done == (match result {
                Some(v) => Some(v),
                None => old(self).done,
            }),
    {
        self.inflight = false;
        if let Some(v) = result {
            self.done = Some(v);
        }
    }
}

// ---------------------------------------------------------------------------
// Uninstall
// ---------------------------------------------------------------------------

/// What an uninstall works on.
#[derive(Debug)]
pub struct UninstallTarget {
    pub install_location: String,
    /// Command line of the application's own uninstaller.
    pub command: String,
    pub is_msix: bool,
    /// Package full name of a Store package.
    pub full_name: String,
    pub name: String,
    pub publisher: String,
}

/// The first registry record with the id.
pub open spec fn registered(s: Seq<RawRegistryApp>, id: Seq<char>) -> Option<RawRegistryApp>
    decreases s.len(),
{
    if s.len() == 0 {
        None
    } else if s[0].id@ == id {
        Some(s[0])
    } else {
        registered(s.drop_first(), id)
    }
}

/// The first Store package with the id.
pub open spec fn packaged(s: Seq<RawMsixApp>, id: Seq<char>) -> Option<RawMsixApp>
    decreases s.len(),
{
    if s.len() == 0 {
        None
    } else if s[0].id@ == id {
        Some(s[0])
    } else {
        packaged(s.drop_first(), id)
    }
}

/// The answer to a request for an application that is not installed.
pub open spec fn not_found_text(id: Seq<char>) -> Seq<char> {
    "application "@ + id + " not found"@
}

impl UninstallTarget {
    /// The target of a registry record: its quiet command where it has one.
    pub open spec fn of_record(&self, r: RawRegistryApp) -> bool {
        &&& self.install_location == r.install_location
        &&& self.command == (if r.quiet_uninstall_string@.len() > 0 {
            r.quiet_uninstall_string
        } else {
            r.uninstall_string
        })
        &&& !self.is_msix
        &&& self.full_name@.len() == 0
        &&& self.name == r.name
        &&& self.publisher == r.publisher
    }

    /// The target of a Store package.
    pub open spec fn of_package(&self, m: RawMsixApp) -> bool {
        &&& self.install_location == m.install_location
        &&& self.command@.len() == 0
        &&& self.is_msix
        &&& self.full_name == m.id
        &&& self.name == m.name
        &&& self.publisher == m.publisher
    }
}

/// Finds what to uninstall: a registry record comes before a Store package.
pub fn uninstall_target(
    registry: &Vec<RawRegistryApp>,
    msix: &Vec<RawMsixApp>,
    id: &str,
) -> (r: Result<UninstallTarget, String>)
    ensures
        match registered(registry@, id@) {
            Some(rec) => r matches Ok(t) && t.of_record(rec),
            None => match packaged(msix@, id@) {
                Some(m) => r matches Ok(t) && t.of_package(m),
                None => r matches Err(e) && e@ == not_found_text(id@),
            },
        },
{
    let mut i: usize = 0;
    assert(registry@.skip(0) =~= registry@);
    while i < registry.len()
        invariant
            i <= registry.len(),
            registered(registry@, id@) == registered(registry@.skip(i as int), id@),
        decreases registry.len() - i,
    {
        let rec = &registry[i];
        if text::same_str(rec.id.as_str(), id) {
            let command = if rec.quiet_uninstall_string.as_str().is_empty() {
                rec.uninstall_string.clone()
            } else {
                rec.quiet_uninstall_string.clone()
            };
            return Ok(
                UninstallTarget {
                    install_location: rec.install_location.clone(),
                    command,
                    is_msix: false,
                    full_name: String::new(),
                    name: rec.name.clone(),
                    publisher: rec.publisher.clone(),
                },
            );
        }
        assert(registry@.skip(i as int).drop_first() =~= registry@.skip(i + 1));
        i += 1;
    }
    let mut j: usize = 0;
    assert(msix@.skip(0) =~= msix@);
    while j < msix.len()
        invariant
            j <= msix.len(),
            registered(registry@, id@) is None,
            packaged(msix@, id@) == packaged(msix@.skip(j as int), id@),
        decreases msix.len() - j,
    {
        let m = &msix[j];
        if text::same_str(m.id.as_str(), id) {
            return Ok(
                UninstallTarget {
                    install_location: m.install_location.clone(),
                    command: String::new(),
                    is_msix: true,
                    full_name: m.id.clone(),
                    name: m.name.clone(),
                    publisher: m.publisher.clone(),
                },
            );
        }
        assert(msix@.skip(j as int).drop_first() =~= msix@.skip(j + 1));
        j += 1;
    }
    Err(text::join3("application ", id, " not found"))
}

/// What the leftovers are matched by after the run.
pub fn identity_of(t: &UninstallTarget) -> (r: AppIdentity)
    ensures
        r.display_name == t.name,
        r.install_folder@ == last_segment(t.install_location@),
        r.family_name@ == (if t.is_msix {
            t.full_name@
        } else {
            Seq::empty()
        }),
        r.publisher == t.publisher,
{
    AppIdentity {
        display_name: t.name.clone(),
        install_folder: install_folder(t.install_location.as_str()),
        family_name: if t.is_msix {
            t.full_name.clone()
        } else {
            String::new()
        },
        publisher: t.publisher.clone(),
    }
}

/// The latest time among the starts below a folder; `None` where there is none.
pub open spec fn latest_start(starts: Seq<(String, i64)>, location: Seq<char>) -> Option<i64>
    decreases starts.len(),
{
    if starts.len() == 0 {
        None
    } else {
        let rest = latest_start(starts.drop_last(), location);
        let (image, at) = starts.last();
        if processes::lies_under(image@, location) {
            match rest {
                Some(t) => if at > t {
                    Some(at)
                } else {
                    Some(t)
                },
                None => Some(at),
            }
        } else {
            rest
        }
    }
}

/// When a program below an install location last ran; `None` for an application
/// without a location and for one of which no start is known.
pub fn last_used_for_install(starts: &[(String, i64)], location: &str) -> (r: Option<i64>)
    ensures
        location@.len() == 0 ==> r is None,
        location@.len() > 0 ==> r == latest_start(starts@, location@),
        match r {
            None => location@.len() == 0 || forall|i: int|
                0 <= i < starts@.len() ==> !processes::lies_under(
                    (#[trigger] starts@[i]).0@,
                    location@,
                ),
            Some(t) => {
                &&& location@.len() > 0
                &&& exists|i: int|
                    0 <= i < starts@.len() && (#[trigger] starts@[i]).1 == t
                        && processes::lies_under(starts@[i].0@, location@)
                &&& forall|i: int|
                    0 <= i < starts@.len() && processes::lies_under(
                        (#[trigger] starts@[i]).0@,
                        location@,
                    ) ==> starts@[i].1 <= t
            },
        },
{
    if location.is_empty() {
        return None;
    }
    let mut best: Option<i64> = None;
    let mut i: usize = 0;
    while i < starts.len()
        invariant
            i <= starts.len(),
            best == latest_start(starts@.take(i as int), location@),
        decreases starts.len() - i,
    {
        assert(starts@.take(i + 1).drop_last() =~= starts@.take(i as int));
        assert(starts@.take(i + 1).last() == starts@[i as int]);
        if processes::image_under(starts[i].0.as_str(), location) {
            let at: i64 = starts[i].1;
            best = match best {
                Some(t) => if at > t {
                    Some(at)
                } else {
                    Some(t)
                },
                None => Some(at),
            };
        }
        i += 1;
    }
    proof {
        assert(starts@.take(i as int) =~= starts@);
        latest_is_the_largest(starts@, location@);
    }
    best
}

proof fn latest_is_the_largest(starts: Seq<(String, i64)>, location: Seq<char>)
    ensures
        match latest_start(starts, location) {
            None => forall|i: int|
                0 <= i < starts.len() ==> !processes::lies_under(
                    (#[trigger] starts[i]).0@,
                    location,
                ),
            Some(t) => {
                &&& exists|i: int|
                    0 <= i < starts.len() && (#[trigger] starts[i]).1 == t
                        && processes::lies_under(starts[i].0@, location)
                &&& forall|i: int|
                    0 <= i < starts.len() && processes::lies_under(
                        (#[trigger] starts[i]).0@,
                        location,
                    ) ==> starts[i].1 <= t
            },
        },
    decreases starts.len(),
{
    if starts.len() > 0 {
        let front = starts.drop_last();
        latest_is_the_largest(front, location);
        assert(starts[starts.len() - 1] == starts.last());
        assert forall|i: int| 0 <= i < front.len() implies starts[i] == #[trigger] front[i] by {}
        assert forall|i: int|
            0 <= i < starts.len() && processes::lies_under(
                (#[trigger] starts[i]).0@,
                location,
            ) implies (latest_start(starts, location) matches Some(t) && starts[i].1 <= t) by {
            if i < front.len() {
                assert(front[i] == starts[i]);
            }
        }
        if let Some(t) = latest_start(front, location) {
            let k = choose|i: int|
                0 <= i < front.len() && (#[trigger] front[i]).1 == t && processes::lies_under(
                    front[i].0@,
                    location,
                );
            assert(starts[k] == front[k]);
        }
    }
}

/// Some record has the id.
pub open spec fn still_registered(s: Seq<RawRegistryApp>, id: Seq<char>) -> bool {
    exists|i: int| 0 <= i < s.len() && (#[trigger] s[i]).id@ == id
}

/// Some package has the id.
pub open spec fn still_packaged(s: Seq<RawMsixApp>, id: Seq<char>) -> bool {
    exists|i: int| 0 <= i < s.len() && (#[trigger] s[i]).id@ == id
}

/// The entry is gone, by what is registered after the run. Store packages that
/// cannot be listed count as gone.
pub open spec fn gone(
    is_msix: bool,
    registry: Seq<RawRegistryApp>,
    msix: Option<Vec<RawMsixApp>>,
    id: Seq<char>,
) -> bool {
    if is_msix {
        match msix {
            Some(list) => !still_packaged(list@, id),
            None => true,
        }
    } else {
        !still_registered(registry, id)
    }
}

/// Whether the entry is gone after the run.
pub fn entry_is_gone(
    is_msix: bool,
    registry_after: &Vec<RawRegistryApp>,
    msix_after: &Option<Vec<RawMsixApp>>,
    id: &str,
) -> (r: bool)
    ensures
        r == gone(is_msix, registry_after@, *msix_after, id@),
{
    if is_msix {
        match msix_after {
            None => true,
            Some(list) => {
                let mut j: usize = 0;
                while j < list.len()
                    invariant
                        j <= list.len(),
                        is_msix,
                        *msix_after == Some(*list),
                        forall|k: int| 0 <= k < j ==> (#[trigger] list@[k]).id@ != id@,
                    decreases list.len() - j,
                {
                    if text::same_str(list[j].id.as_str(), id) {
                        return false;
                    }
                    j += 1;
                }
                true
            },
        }
    } else {
        let mut i: usize = 0;
        while i < registry_after.len()
            invariant
                i <= registry_after.len(),
                !is_msix,
                forall|k: int| 0 <= k < i ==> (#[trigger] registry_after@[k]).id@ != id@,
            decreases registry_after.len() - i,
        {
            if text::same_str(registry_after[i].id.as_str(), id) {
                return false;
            }
            i += 1;
        }
        true
    }
}

/// The outcome of one uninstall.
#[derive(Debug)]
pub struct UninstallResult {
    /// Process images closed before the uninstaller ran.
    pub closed_processes: Vec<String>,
    /// Exit code of the uninstaller; 0 for a Store package.
    pub exit_code: i32,
    pub remaining_leftovers: Vec<LeftoverGroup>,
    /// The entry is gone after the run.
    pub removed_entry: bool,
}

// ---------------------------------------------------------------------------
// The run
// ---------------------------------------------------------------------------

/// What an uninstall does next.
#[derive(Debug)]
pub enum UninstallAction {
    /// Close the processes that run from this folder.
    Close(String),
    /// Remove the Store package with this full name.
    Remove(String),
    /// Run this command line and wait for it.
    Launch(String),
    /// Match leftovers by this identity and list again what is registered.
    Survey(AppIdentity),
    /// The run is over.
    Report(UninstallResult),
    /// The run failed.
    Fail(String),
}

/// What came of an action.
#[derive(Debug)]
pub enum UninstallEvent {
    /// These process images were closed.
    Closed(Vec<String>),
    /// The package was removed, or could not be.
    Removed(Result<(), String>),
    /// The uninstaller ended with this code, or could not be run.
    Ended(Result<i32, String>),
    /// The leftovers that remain, and what is registered after the run.
    Surveyed(Vec<LeftoverGroup>, Vec<RawRegistryApp>, Option<Vec<RawMsixApp>>),
}

/// An uninstall under way.
#[derive(Debug)]
pub struct UninstallRun {
    pub id: String,
    pub target: UninstallTarget,
    pub closed: Vec<String>,
    pub exit_code: i32,
}

impl UninstallRun {
    /// Removing what the target names: a Store package by its full name, any
    /// other application by its own uninstaller.
    pub open spec fn removal(&self, a: UninstallAction) -> bool {
        if self.target.is_msix {
            a matches UninstallAction::Remove(n) && n@ == self.target.full_name@
        } else {
            a matches UninstallAction::Launch(c) && c@ == self.target.command@
        }
    }

    fn remove(&self) -> (a: UninstallAction)
        ensures
            self.removal(a),
    {
        if self.target.is_msix {
            UninstallAction::Remove(self.target.full_name.clone())
        } else {
            UninstallAction::Launch(self.target.command.clone())
        }
    }

    /// Asks for what remains after the removal.
    pub open spec fn survey(&self, a: UninstallAction) -> bool {
        a matches UninstallAction::Survey(i) && {
            &&& i.display_name@ == self.target.name@
            &&& i.install_folder@ == last_segment(self.target.install_location@)
            &&& i.family_name@ == (if self.target.is_msix {
                self.target.full_name@
            } else {
                Seq::empty()
            })
            &&& i.publisher@ == self.target.publisher@
        }
    }

    /// Begins the uninstall of a target: processes are closed first, where the
    /// target says from where.
    pub fn begin(id: &str, target: UninstallTarget) -> (r: (UninstallRun, UninstallAction))
        ensures
            r.0.id@ == id@,
            r.0.target == target,
            r.0.closed@.len() == 0,
            r.0.exit_code == 0,
            if target.install_location@.len() > 0 {
                r.1 matches UninstallAction::Close(p) && p@ == target.install_location@
            } else {
                r.0.removal(r.1)
            },
            target.install_location@.len() == 0 && target.is_msix ==> (
            r.1 matches UninstallAction::Remove(n) && n@ == target.full_name@),
            target.install_location@.len() == 0 && !target.is_msix ==> (
            r.1 matches UninstallAction::Launch(c) && c@ == target.command@),
    {
        let run = UninstallRun { id: id.to_owned(), target, closed: Vec::new(), exit_code: 0 };
        let action = if run.target.install_location.as_str().is_empty() {
            run.remove()
        } else {
            UninstallAction::Close(run.target.install_location.clone())
        };
        (run, action)
    }

    /// The next action after an event. An error ends the run with its text; the
    /// exit code of an uninstaller does not.
    pub fn step(&mut self, event: UninstallEvent) -> (a: UninstallAction)
        ensures
            final(self).id == old(self).id,
            final(self).target == old(self).target,
            match event {
                UninstallEvent::Closed(c) => final(self).closed == c,
                UninstallEvent::Surveyed(..) => final(self).closed@.len() == 0,
                _ => final(self).closed == old(self).closed,
            },
            final(self).exit_code == (match event {
                UninstallEvent::Ended(Ok(code)) => code,
                _ => old(self).exit_code,
            }),
            match event {
                UninstallEvent::Closed(_) => old(self).removal(a),
                UninstallEvent::Removed(Ok(_)) => old(self).survey(a),
                UninstallEvent::Ended(Ok(_)) => old(self).survey(a),
                UninstallEvent::Removed(Err(e)) => a == UninstallAction::Fail(e),
                UninstallEvent::Ended(Err(e)) => a == UninstallAction::Fail(e),
                UninstallEvent::Surveyed(left, registry, msix) => {
                    &&& a matches UninstallAction::Report(r)
                    &&& r.closed_processes == old(self).closed
                    &&& r.exit_code == old(self).exit_code
                    &&& r.remaining_leftovers == left
                    &&& r.removed_entry == gone(
                        old(self).target.is_msix,
                        registry@,
                        msix,
                        old(self).id@,
                    )
                },
            },
            event is Closed && old(self).target.is_msix ==> (a matches UninstallAction::Remove(n)
                && n@ == old(self).target.full_name@),
            event is Closed && !old(self).target.is_msix ==> (a matches UninstallAction::Launch(c)
                && c@ == old(self).target.command@),
            (event matches UninstallEvent::Removed(Ok(_)) || event matches UninstallEvent::Ended(
                Ok(_),
            )) ==> (a matches UninstallAction::Survey(i) && i.display_name@ == old(self).target.name@ && i.publisher@ == old(self).target.publisher@),
            event matches UninstallEvent::Surveyed(left, registry, msix) ==> (
            a matches UninstallAction::Report(r) && (r.removed_entry <==> if old(self).target.is_msix {
                msix is None || forall|k: int|
                    0 <= k < msix->0@.len() ==> (#[trigger] msix->0@[k]).id@ != old(self).id@
            } else {
                forall|k: int|
                    0 <= k < registry@.len() ==> (#[trigger] registry@[k]).id@ != old(self).id@
            })),
    {
        match event {
            UninstallEvent::Closed(c) => {
                self.closed = c;
                self.remove()
            },
            UninstallEvent::Removed(Ok(_)) => UninstallAction::Survey(identity_of(&self.target)),
            UninstallEvent::Removed(Err(e)) => UninstallAction::Fail(e),
            UninstallEvent::Ended(Ok(code)) => {
                self.exit_code = code;
                UninstallAction::Survey(identity_of(&self.target))
            },
            UninstallEvent::Ended(Err(e)) => UninstallAction::Fail(e),
            UninstallEvent::Surveyed(left, registry, msix) => {
                let removed_entry = entry_is_gone(
                    self.target.is_msix,
                    &registry,
                    &msix,
                    self.id.as_str(),
                );
                let mut closed: Vec<String> = Vec::new();
                std::mem::swap(&mut closed, &mut self.closed);
                UninstallAction::Report(
                    UninstallResult {
                        closed_processes: closed,
                        exit_code: self.exit_code,
                        remaining_leftovers: left,
                        removed_entry,
                    },
                )
            },
        }
    }
}

// ---------------------------------------------------------------------------
// Laws
// ---------------------------------------------------------------------------

/// A rounded length is the least multiple of the cluster that is no shorter and
/// fits in 64 bits, or the largest number where none fits; without a cluster it
/// is the length itself.
pub proof fn rounding_is_the_least_that_holds(len: u64, cluster: u64, r: u64, k: int)
    requires
        call_ensures(round_up, (len, cluster), r),
    ensures
        cluster == 0 ==> r == len,
        cluster > 0 ==> r >= len && r - len < cluster && (r as int % cluster as int == 0 || r
            == u64::MAX),
        cluster > 0 && k * cluster >= len && k * cluster <= u64::MAX ==> r <= k * cluster && r as int
            % cluster as int == 0,
{
    if cluster > 0 {
        let c = cluster as int;
        let n = len as int;
        ceil_split(n, c);
        let q = (n + c - 1) / c;
        vstd::arithmetic::div_mod::lemma_fundamental_div_mod(n, c);
        vstd::arithmetic::div_mod::lemma_mod_bound(n, c);
        vstd::arithmetic::div_mod::lemma_mod_multiples_basic(q, c);
        let w = n / c;
        assert(c * w == w * c) by (nonlinear_arith);
        assert((w + 1) * c == w * c + c) by (nonlinear_arith);
        assert(q * c >= n && q * c < n + c);
        if k * c >= n {
            assert(k >= q) by (nonlinear_arith)
                requires
                    k * c >= n,
                    q * c < n + c,
                    c > 0,
            ;
            assert(k * c >= q * c) by (nonlinear_arith)
                requires
                    k >= q,
                    c > 0,
            ;
        }
    }
}

/// One file more takes its own rounded length more, up to the largest number;
/// without files nothing is taken.
pub proof fn every_file_takes_whole_clusters(
    lens: &[u64],
    more: &[u64],
    cluster: u32,
    a: u64,
    b: u64,
    last: u64,
)
    requires
        more@.len() > 0,
        lens@ == more@.drop_last(),
        call_ensures(allocated_size, (lens, cluster), a),
        call_ensures(allocated_size, (more, cluster), b),
        call_ensures(round_up, (more@.last(), cluster as u64), last),
    ensures
        lens@.len() == 0 ==> a == 0,
        a + last <= u64::MAX ==> b == a + last,
        a + last > u64::MAX ==> b == u64::MAX,
{
    allocated_is_nat(lens@, cluster as int);
    rounded_is_nat(more@.last() as int, cluster as int);
}

/// A walk starts with a folder to read, with the whole clusters of a file, or
/// with nothing.
pub proof fn a_walk_starts_by_what_is_there(
    path: &str,
    what: Option<EntryKind>,
    cluster: u32,
    r: SizeWalk,
    size: u64,
)
    requires
        call_ensures(SizeWalk::start, (path, what, cluster), r),
        what matches Some(EntryKind::File(n)) ==> call_ensures(round_up, (n, cluster as u64), size),
    ensures
        what == Some(EntryKind::Folder) ==> r.queue@.len() == 1 && r.queue@[0]@ == path@ && r.total
            == 0,
        what matches Some(EntryKind::File(_)) ==> r.queue@.len() == 0 && r.total == size,
        what is None || what == Some(EntryKind::Link) ==> r.queue@.len() == 0 && r.total == 0,
        r.cluster == cluster,
{
    if what == Some(EntryKind::Folder) {
        assert(scan::strings(r.queue@).len() == 1);
        assert(scan::strings(r.queue@)[0] == r.queue@[0]@);
    }
}

/// A walk reads the folders among the entries and nothing else, and counts the
/// files and nothing else: one entry more adds its path if it is a folder, its
/// length if it is a file, and nothing if it is a link.
pub proof fn a_walk_reads_folders_and_counts_files(entries: Seq<WalkEntry>)
    ensures
        folders_in(Seq::empty()) == Seq::<Seq<char>>::empty(),
        lengths_in(Seq::empty()) == Seq::<u64>::empty(),
        entries.len() > 0 && entries.last().kind is Link ==> folders_in(entries) == folders_in(
            entries.drop_last(),
        ) && lengths_in(entries) == lengths_in(entries.drop_last()),
        entries.len() > 0 && entries.last().kind is Folder ==> folders_in(entries) == folders_in(
            entries.drop_last(),
        ).push(entries.last().path@) && lengths_in(entries) == lengths_in(entries.drop_last()),
        entries.len() > 0 && entries.last().kind is File ==> folders_in(entries) == folders_in(
            entries.drop_last(),
        ) && lengths_in(entries) == lengths_in(entries.drop_last()).push(entries.last().kind->0),
{
}

/// The candidates of a leftover root are the folders in it, in order; `at` gives
/// their places among the entries.
pub proof fn candidates_are_the_folders(entries: &[WalkEntry], r: Vec<(String, String)>) -> (at: Seq<
    int,
>)
    requires
        call_ensures(root_candidates, (entries,), r),
    ensures
        at.len() == r@.len(),
        forall|a: int, b: int| 0 <= a < b < at.len() ==> #[trigger] at[a] < #[trigger] at[b],
        forall|k: int|
            0 <= k < at.len() ==> {
                &&& 0 <= #[trigger] at[k] < entries@.len()
                &&& r@[k].0@ == entries@[at[k]].name@
                &&& r@[k].1@ == entries@[at[k]].path@
            },
        forall|i: int|
            0 <= i < entries@.len() ==> (at.contains(i) <==> (#[trigger] entries@[i]).kind is Folder),
{
    let at = candidate_places(entries@);
    let v = crate::sidebar::pair_views(r@);
    assert(v.len() == r@.len());
    assert forall|k: int| 0 <= k < at.len() implies {
        &&& 0 <= #[trigger] at[k] < entries@.len()
        &&& r@[k].0@ == entries@[at[k]].name@
        &&& r@[k].1@ == entries@[at[k]].path@
    } by {
        assert(v[k] == (r@[k].0@, r@[k].1@));
    }
    at
}

proof fn candidate_places(entries: Seq<WalkEntry>) -> (at: Seq<int>)
    ensures
        at.len() == candidates_in(entries).len(),
        forall|a: int, b: int| 0 <= a < b < at.len() ==> #[trigger] at[a] < #[trigger] at[b],
        forall|k: int|
            0 <= k < at.len() ==> {
                &&& 0 <= #[trigger] at[k] < entries.len()
                &&& candidates_in(entries)[k] == (entries[at[k]].name@, entries[at[k]].path@)
            },
        forall|i: int|
            0 <= i < entries.len() ==> (at.contains(i) <==> (#[trigger] entries[i]).kind is Folder),
    decreases entries.len(),
{
    if entries.len() == 0 {
        Seq::empty()
    } else {
        let less = entries.drop_last();
        let rest = candidate_places(less);
        let n = entries.len() - 1;
        let at = if entries.last().kind == EntryKind::Folder {
            rest.push(n)
        } else {
            rest
        };
        assert forall|k: int| 0 <= k < at.len() implies {
            &&& 0 <= #[trigger] at[k] < entries.len()
            &&& candidates_in(entries)[k] == (entries[at[k]].name@, entries[at[k]].path@)
        } by {
            if k < rest.len() {
                assert(at[k] == rest[k]);
                assert(less[rest[k]] == entries[rest[k]]);
            }
        }
        assert forall|a: int, b: int| 0 <= a < b < at.len() implies #[trigger] at[a]
            < #[trigger] at[b] by {
            assert(at[a] == rest[a]);
            if b < rest.len() {
                assert(at[b] == rest[b]);
            }
        }
        assert forall|i: int| 0 <= i < entries.len() implies (at.contains(i) <==> (
        #[trigger] entries[i]).kind is Folder) by {
            if i < n {
                assert(less[i] == entries[i]);
                if rest.contains(i) {
                    let q = rest.index_of(i);
                    assert(at[q] == i);
                }
                if at.contains(i) {
                    let q = at.index_of(i);
                    assert(at[q] == i);
                    assert(q < rest.len());
                    assert(rest[q] == i);
                }
            } else {
                if at.len() > rest.len() {
                    assert(at[rest.len() as int] == i);
                }
                if at.contains(i) {
                    let q = at.index_of(i);
                    assert(at[q] == i);
                    if q < rest.len() {
                        assert(rest[q] == i);
                    }
                }
            }
        }
        at
    }
}

/// The leftover roots are those that exist, by ascending index: local, roaming,
/// LocalLow below the profile, ProgramData, and the packages below local.
pub proof fn leftovers_are_looked_for_in_known_folders(
    known: &KnownFolders,
    r: Vec<(usize, String)>,
    i: usize,
    p: Seq<char>,
)
    requires
        call_ensures(leftover_roots, (known,), r),
    ensures
        forall|a: int, b: int|
            0 <= a < b < r@.len() ==> (#[trigger] r@[a]).0 < (#[trigger] r@[b]).0,
        (exists|k: int| 0 <= k < r@.len() && (#[trigger] r@[k]).0 == i && r@[k].1@ == p) <==> {
            ||| i == 0 && known.local is Some && p == known.local->0@
            ||| i == 1 && known.roaming is Some && p == known.roaming->0@
            ||| i == 2 && known.local is Some && known.profile is Some && p == known.profile->0@
                + "\\AppData\\LocalLow"@
            ||| i == 3 && known.program_data is Some && p == known.program_data->0@
            ||| i == 4 && known.local is Some && p == known.local->0@ + "\\Packages"@
        },
{
    let v = indexed_views(r@);
    roots_hold(*known, 5);
    assert forall|a: int, b: int| 0 <= a < b < r@.len() implies (#[trigger] r@[a]).0 < (
    #[trigger] r@[b]).0 by {
        assert(v[a].0 < v[b].0);
    }
    if exists|k: int| 0 <= k < r@.len() && (#[trigger] r@[k]).0 == i && r@[k].1@ == p {
        let k = choose|k: int| 0 <= k < r@.len() && (#[trigger] r@[k]).0 == i && r@[k].1@ == p;
        assert(v[k] == (i as int, p));
    }
    if i < 5 && root_path(*known, i as int) == Some(p) {
        assert(v.contains((i as int, p)));
        let k = v.index_of((i as int, p));
        assert(v[k] == (r@[k].0 as int, r@[k].1@));
        assert(r@[k].0 == i && r@[k].1@ == p);
    }
}

proof fn roots_hold(k: KnownFolders, n: nat)
    ensures
        forall|a: int|
            0 <= a < roots_upto(k, n).len() ==> {
                let e = #[trigger] roots_upto(k, n)[a];
                0 <= e.0 < n && root_path(k, e.0) == Some(e.1)
            },
        forall|a: int, b: int|
            0 <= a < b < roots_upto(k, n).len() ==> (#[trigger] roots_upto(k, n)[a]).0 < (
            #[trigger] roots_upto(k, n)[b]).0,
        forall|i: int|
            0 <= i < n && (#[trigger] root_path(k, i)) is Some ==> roots_upto(k, n).contains(
                (i, root_path(k, i)->0),
            ),
    decreases n,
{
    if n > 0 {
        roots_hold(k, (n - 1) as nat);
        let rest = roots_upto(k, (n - 1) as nat);
        let whole = roots_upto(k, n);
        assert forall|a: int| 0 <= a < whole.len() implies {
            let e = #[trigger] whole[a];
            0 <= e.0 < n && root_path(k, e.0) == Some(e.1)
        } by {
            if a < rest.len() {
                assert(whole[a] == rest[a]);
            }
        }
        assert forall|a: int, b: int| 0 <= a < b < whole.len() implies (#[trigger] whole[a]).0 < (
        #[trigger] whole[b]).0 by {
            assert(whole[a] == rest[a]);
            if b < rest.len() {
                assert(whole[b] == rest[b]);
            }
        }
        assert forall|i: int| 0 <= i < n && (#[trigger] root_path(
            k,
            i,
        )) is Some implies whole.contains((i, root_path(k, i)->0)) by {
            let e = (i, root_path(k, i)->0);
            if i < n - 1 {
                let q = rest.index_of(e);
                assert(whole[q] == e);
            } else {
                assert(whole[rest.len() as int] == e);
            }
        }
    }
}

proof fn after_sep_holds(s: Seq<char>)
    ensures
        after_sep(s).len() <= s.len(),
        s.skip(s.len() - after_sep(s).len()) == after_sep(s),
        forall|i: int|
            0 <= i < after_sep(s).len() ==> #[trigger] after_sep(s)[i] != '\\' && after_sep(s)[i]
                != '/',
        after_sep(s).len() < s.len() ==> scan::is_sep(s[s.len() - after_sep(s).len() - 1]),
    decreases s.len(),
{
    if s.len() > 0 && !scan::is_sep(s.last()) {
        let less = s.drop_last();
        after_sep_holds(less);
        let a = after_sep(less);
        assert(s.skip(s.len() - after_sep(s).len()) =~= less.skip(less.len() - a.len()).push(
            s.last(),
        ));
        assert forall|i: int| 0 <= i < after_sep(s).len() implies #[trigger] after_sep(s)[i]
            != '\\' && after_sep(s)[i] != '/' by {
            if i < a.len() {
                assert(after_sep(s)[i] == a[i]);
            }
        }
    } else {
        assert(s.skip(s.len() as int) =~= Seq::empty());
    }
}

proof fn tail_seps(s: Seq<char>)
    ensures
        scan::no_tail_seps(s, true).len() <= s.len(),
        s.take(scan::no_tail_seps(s, true).len() as int) == scan::no_tail_seps(s, true),
        forall|i: int|
            scan::no_tail_seps(s, true).len() <= i < s.len() ==> (#[trigger] s[i] == '\\' || s[i]
                == '/'),
        scan::no_tail_seps(s, true).len() > 0 ==> scan::no_tail_seps(s, true).last() != '\\'
            && scan::no_tail_seps(s, true).last() != '/',
    decreases s.len(),
{
    if s.len() > 0 && (s.last() == '\\' || s.last() == '/') {
        let less = s.drop_last();
        tail_seps(less);
        let n = scan::no_tail_seps(s, true).len() as int;
        assert(s.take(n) =~= less.take(n));
        assert forall|i: int| n <= i < s.len() implies (#[trigger] s[i] == '\\' || s[i]
            == '/') by {
            if i < less.len() {
                assert(less[i] == s[i]);
            }
        }
    } else {
        assert(s.take(s.len() as int) =~= s);
    }
}

/// The install folder is the last non-empty segment of the location: what stands
/// between its last separator but the trailing ones and these; it is empty only
/// where the location holds nothing but separators.
pub proof fn the_install_folder_is_the_last_segment(location: &str, r: String) -> (at: (int, int))
    requires
        call_ensures(install_folder, (location,), r),
    ensures
        0 <= at.0 <= at.1 <= location@.len(),
        r@ == location@.subrange(at.0, at.1),
        forall|i: int|
            at.1 <= i < location@.len() ==> (#[trigger] location@[i] == '\\' || location@[i] == '/'),
        at.0 > 0 ==> location@[at.0 - 1] == '\\' || location@[at.0 - 1] == '/',
        forall|i: int| 0 <= i < r@.len() ==> #[trigger] r@[i] != '\\' && r@[i] != '/',
        r@.len() == 0 ==> at.1 == 0,
{
    let s = location@;
    let t = scan::no_tail_seps(s, true);
    tail_seps(s);
    after_sep_holds(t);
    let to = t.len() as int;
    let from = to - after_sep(t).len();
    assert(s.subrange(from, to) =~= t.skip(from));
    if from > 0 {
        assert(t[from - 1] == s[from - 1]);
    }
    if r@.len() == 0 && to > 0 {
        assert(t[to - 1] == t.last());
    }
    (from, to)
}

/// An entry keeps what its registry record says, and is matched by its name, the
/// folder it is installed in and its publisher.
pub proof fn a_registry_entry_keeps_its_record(
    r: &RawRegistryApp,
    last_used: Option<i64>,
    e: (AppEntry, AppIdentity),
    folder: String,
    location: &str,
)
    requires
        call_ensures(seed_registry, (r, last_used), e),
        location@ == r.install_location@,
        call_ensures(install_folder, (location,), folder),
    ensures
        e.0.source is Registry,
        e.0.id@ == r.id@ && e.0.name@ == r.name@ && e.0.publisher@ == r.publisher@ && e.0.version@
            == r.version@,
        e.0.install_location@ == r.install_location@,
        e.0.uninstall_string@ == r.uninstall_string@,
        e.0.quiet_uninstall_string@ == r.quiet_uninstall_string@,
        e.0.package_full_name@.len() == 0,
        e.0.last_used == last_used,
        e.0.bundle_size == 0 && e.0.total == 0 && e.0.leftovers@.len() == 0 && e.0.icon@.len() == 0,
        e.1.display_name@ == r.name@,
        e.1.install_folder@ == folder@,
        e.1.family_name@.len() == 0,
        e.1.publisher@ == r.publisher@,
{
}

/// An entry keeps what its Store package says; it has no commands and no last
/// start, and is matched by its family name too.
pub proof fn a_store_entry_keeps_its_package(
    m: &RawMsixApp,
    e: (AppEntry, AppIdentity),
    folder: String,
    location: &str,
)
    requires
        call_ensures(seed_msix, (m,), e),
        location@ == m.install_location@,
        call_ensures(install_folder, (location,), folder),
    ensures
        e.0.source is Msix,
        e.0.id@ == m.id@ && e.0.name@ == m.name@ && e.0.publisher@ == m.publisher@ && e.0.version@
            == m.version@,
        e.0.install_location@ == m.install_location@,
        e.0.uninstall_string@.len() == 0 && e.0.quiet_uninstall_string@.len() == 0,
        e.0.package_full_name@ == m.id@,
        e.0.last_used is None,
        e.0.bundle_size == 0 && e.0.total == 0 && e.0.leftovers@.len() == 0 && e.0.icon@.len() == 0,
        e.1.display_name@ == m.name@,
        e.1.install_folder@ == folder@,
        e.1.family_name@ == m.family_name@,
        e.1.publisher@ == m.publisher@,
{
}

/// An icon is read from the icon path of the last record with the entry's id, or
/// from the install location where that path is empty or there is no record; of a
/// Store package from nowhere.
pub proof fn an_icon_comes_from_the_last_record(
    app: &AppEntry,
    registry: &Vec<RawRegistryApp>,
    r: Option<String>,
)
    requires
        call_ensures(icon_ref, (app, registry), r),
    ensures
        app.source is Msix <==> r is None,
        app.source is Registry && (forall|k: int|
            0 <= k < registry@.len() ==> (#[trigger] registry@[k]).id@ != app.id@) ==> r->0@
            == app.install_location@,
        forall|i: int|
            app.source is Registry && 0 <= i < registry@.len() && (#[trigger] registry@[i]).id@
                == app.id@ && (forall|k: int|
                i < k < registry@.len() ==> (#[trigger] registry@[k]).id@ != app.id@) ==> {
                &&& registry@[i].display_icon@.len() > 0 ==> r->0@ == registry@[i].display_icon@
                &&& registry@[i].display_icon@.len() == 0 ==> r->0@ == app.install_location@
            },
{
    icon_path_holds(registry@, app.id@);
}

proof fn icon_path_holds(registry: Seq<RawRegistryApp>, id: Seq<char>)
    ensures
        (forall|k: int| 0 <= k < registry.len() ==> (#[trigger] registry[k]).id@ != id)
            ==> icon_path(registry, id).len() == 0,
        forall|i: int|
            0 <= i < registry.len() && (#[trigger] registry[i]).id@ == id && (forall|k: int|
                i < k < registry.len() ==> (#[trigger] registry[k]).id@ != id) ==> icon_path(
                registry,
                id,
            ) == registry[i].display_icon@,
    decreases registry.len(),
{
    if registry.len() > 0 {
        let less = registry.drop_last();
        let n = registry.len() - 1;
        icon_path_holds(less, id);
        assert(registry[n] == registry.last());
        assert forall|k: int| 0 <= k < less.len() implies #[trigger] less[k] == registry[k] by {}
        if registry.last().id@ != id {
            if forall|k: int| 0 <= k < registry.len() ==> (#[trigger] registry[k]).id@ != id {
                assert forall|k: int| 0 <= k < less.len() implies (#[trigger] less[k]).id@
                    != id by {
                    assert(registry[k].id@ != id);
                }
            }
            assert forall|i: int|
                0 <= i < registry.len() && (#[trigger] registry[i]).id@ == id && (forall|k: int|
                    i < k < registry.len() ==> (#[trigger] registry[k]).id@ != id) implies icon_path(
                registry,
                id,
            ) == registry[i].display_icon@ by {
                assert(i < n);
                assert(less[i] == registry[i]);
                assert forall|k: int| i < k < less.len() implies (#[trigger] less[k]).id@ != id by {
                    assert(registry[k].id@ != id);
                }
            }
        } else {
            assert forall|i: int|
                0 <= i < registry.len() && (#[trigger] registry[i]).id@ == id && (forall|k: int|
                    i < k < registry.len() ==> (#[trigger] registry[k]).id@ != id) implies icon_path(
                registry,
                id,
            ) == registry[i].display_icon@ by {
                if i < n {
                    assert(registry[n].id@ != id);
                }
            }
        }
    }
}

/// The list shows the applications by their totals, the largest first and equal
/// ones in their order, five hundred at most; only the total of an entry changes.
/// `at` gives their places; what is missing stands behind five hundred entries
/// that are no smaller.
pub proof fn the_largest_applications_are_listed(apps: Vec<AppEntry>, r: Vec<AppEntry>) -> (at: Seq<
    int,
>)
    requires
        apps@.len() <= u32::MAX,
        call_ensures(finish_list, (apps,), r),
    ensures
        at.len() == r@.len(),
        apps@.len() <= 500 ==> r@.len() == apps@.len(),
        apps@.len() > 500 ==> r@.len() == 500,
        at.no_duplicates(),
        forall|i: int|
            0 <= i < r@.len() ==> {
                &&& 0 <= #[trigger] at[i] < apps@.len()
                &&& r@[i] == (AppEntry { total: r@[i].total, ..apps@[at[i]] })
                &&& r@[i].total >= apps@[at[i]].bundle_size
                &&& apps@[at[i]].leftovers@.len() == 0 ==> r@[i].total == apps@[at[i]].bundle_size
            },
        forall|i: int, j: int|
            0 <= i < j < r@.len() ==> (#[trigger] r@[i]).total > (#[trigger] r@[j]).total || (
            r@[i].total == r@[j].total && at[i] < at[j]),
{
    let f = footprints(apps@);
    let full = order::ranking(f);
    let wanted = listed_positions(apps@);
    let at = Seq::new(r@.len(), |i: int| full[i].1 as int);
    order::ranking_is_ranked(f);
    assert(f.no_duplicates());
    assert forall|k: int| 0 <= k < full.len() implies (#[trigger] full[k]).1 < apps@.len()
        && full[k].0 == footprint(apps@[full[k].1 as int]) by {
        assert(full.contains(full[k]));
        let q = f.index_of(full[k]);
        assert(f[q] == full[k]);
        footprint_fits(apps@[q]);
    }
    assert forall|i: int| 0 <= i < r@.len() implies {
        &&& 0 <= #[trigger] at[i] < apps@.len()
        &&& r@[i] == (AppEntry { total: r@[i].total, ..apps@[at[i]] })
        &&& r@[i].total == full[i].0
        &&& r@[i].total >= apps@[at[i]].bundle_size
        &&& apps@[at[i]].leftovers@.len() == 0 ==> r@[i].total == apps@[at[i]].bundle_size
    } by {
        assert(wanted[i] == full[i].1);
        let a = apps@[wanted[i] as int];
        assert(r@[i] == (AppEntry { total: footprint(a) as u64, ..a }));
        leftover_bytes_is_nat(a.leftovers@);
    }
    assert forall|i: int, j: int| 0 <= i < j < r@.len() implies (#[trigger] r@[i]).total > (
    #[trigger] r@[j]).total || (r@[i].total == r@[j].total && at[i] < at[j]) by {
        assert(at[i] < apps@.len() && at[j] < apps@.len());
        assert(order::before(full[i], full[j]));
        assert(full[i] != full[j]);
    }
    assert(at.no_duplicates()) by {
        assert forall|i: int, j: int| 0 <= i < at.len() && 0 <= j < at.len() && i != j implies at[i]
            != at[j] by {
            if at[i] == at[j] {
                assert(full[i] == full[j]);
            }
        }
    }
    at
}

/// One group of leftovers more raises the total of an application by its size, up
/// to the largest number.
pub proof fn leftovers_count_for_the_total(
    one: Vec<AppEntry>,
    more: Vec<AppEntry>,
    a: Vec<AppEntry>,
    b: Vec<AppEntry>,
)
    requires
        one@.len() == 1 && more@.len() == 1,
        more@[0].bundle_size == one@[0].bundle_size,
        more@[0].leftovers@.len() > 0,
        one@[0].leftovers@ == more@[0].leftovers@.drop_last(),
        call_ensures(finish_list, (one,), a),
        call_ensures(finish_list, (more,), b),
    ensures
        a@.len() == 1 && b@.len() == 1,
        a@[0].total + more@[0].leftovers@.last().size <= u64::MAX ==> b@[0].total == a@[0].total
            + more@[0].leftovers@.last().size,
        a@[0].total + more@[0].leftovers@.last().size > u64::MAX ==> b@[0].total == u64::MAX,
{
    let pa = the_largest_applications_are_listed(one, a);
    let pb = the_largest_applications_are_listed(more, b);
    leftover_bytes_is_nat(one@[0].leftovers@);
    footprint_fits(one@[0]);
    footprint_fits(more@[0]);
    order::ranking_is_ranked(footprints(one@));
    order::ranking_is_ranked(footprints(more@));
    let ra = order::ranking(footprints(one@));
    let rb = order::ranking(footprints(more@));
    assert(ra.contains(ra[0]) && rb.contains(rb[0]));
    assert(footprints(one@).contains(ra[0]) && footprints(more@).contains(rb[0]));
    assert(ra[0].1 == 0 && rb[0].1 == 0);
    assert(listed_positions(one@)[0] == 0);
    assert(listed_positions(more@)[0] == 0);
    assert(a@[0].total == footprint(one@[0]));
    assert(b@[0].total == footprint(more@[0]));
}

/// What was found fills an entry in: the leftovers always, the size where the
/// entry has a location, the icon of a registry entry (none is empty); everything
/// else stays.
pub proof fn what_was_found_fills_the_entry(seed: AppEntry, f: AppFacts, r: AppEntry)
    requires
        call_ensures(fill_entry, (seed, f), r),
    ensures
        r.leftovers == f.leftovers,
        seed.install_location@.len() > 0 ==> r.bundle_size == f.bundle_size,
        seed.install_location@.len() == 0 ==> r.bundle_size == seed.bundle_size,
        seed.source is Registry && f.icon is Some ==> r.icon@ == f.icon->0@,
        seed.source is Registry && f.icon is None ==> r.icon@.len() == 0,
        seed.source is Msix ==> r.icon@ == seed.icon@,
        r.id == seed.id && r.name == seed.name && r.publisher == seed.publisher && r.version
            == seed.version,
        r.source == seed.source && r.install_location == seed.install_location,
        r.uninstall_string == seed.uninstall_string && r.quiet_uninstall_string
            == seed.quiet_uninstall_string && r.package_full_name == seed.package_full_name,
        r.last_used == seed.last_used,
{
}

proof fn registered_holds(s: Seq<RawRegistryApp>, id: Seq<char>)
    ensures
        (forall|k: int| 0 <= k < s.len() ==> (#[trigger] s[k]).id@ != id) <==> registered(
            s,
            id,
        ) is None,
        forall|i: int|
            0 <= i < s.len() && (#[trigger] s[i]).id@ == id && (forall|k: int|
                0 <= k < i ==> (#[trigger] s[k]).id@ != id) ==> registered(s, id) == Some(s[i]),
    decreases s.len(),
{
    if s.len() > 0 {
        let rest = s.drop_first();
        registered_holds(rest, id);
        assert forall|k: int| 0 <= k < rest.len() implies #[trigger] rest[k] == s[k + 1] by {}
        if s[0].id@ != id {
            if forall|k: int| 0 <= k < rest.len() ==> (#[trigger] rest[k]).id@ != id {
                assert forall|k: int| 0 <= k < s.len() implies (#[trigger] s[k]).id@ != id by {
                    if k > 0 {
                        assert(rest[k - 1] == s[k]);
                    }
                }
            }
            assert forall|i: int|
                0 <= i < s.len() && (#[trigger] s[i]).id@ == id && (forall|k: int|
                    0 <= k < i ==> (#[trigger] s[k]).id@ != id) implies registered(s, id) == Some(
                s[i],
            ) by {
                assert(rest[i - 1] == s[i]);
                assert forall|k: int| 0 <= k < i - 1 implies (#[trigger] rest[k]).id@ != id by {
                    assert(s[k + 1].id@ != id);
                }
            }
        }
    }
}

proof fn packaged_holds(s: Seq<RawMsixApp>, id: Seq<char>)
    ensures
        (forall|k: int| 0 <= k < s.len() ==> (#[trigger] s[k]).id@ != id) <==> packaged(
            s,
            id,
        ) is None,
        forall|i: int|
            0 <= i < s.len() && (#[trigger] s[i]).id@ == id && (forall|k: int|
                0 <= k < i ==> (#[trigger] s[k]).id@ != id) ==> packaged(s, id) == Some(s[i]),
    decreases s.len(),
{
    if s.len() > 0 {
        let rest = s.drop_first();
        packaged_holds(rest, id);
        assert forall|k: int| 0 <= k < rest.len() implies #[trigger] rest[k] == s[k + 1] by {}
        if s[0].id@ != id {
            if forall|k: int| 0 <= k < rest.len() ==> (#[trigger] rest[k]).id@ != id {
                assert forall|k: int| 0 <= k < s.len() implies (#[trigger] s[k]).id@ != id by {
                    if k > 0 {
                        assert(rest[k - 1] == s[k]);
                    }
                }
            }
            assert forall|i: int|
                0 <= i < s.len() && (#[trigger] s[i]).id@ == id && (forall|k: int|
                    0 <= k < i ==> (#[trigger] s[k]).id@ != id) implies packaged(s, id) == Some(
                s[i],
            ) by {
                assert(rest[i - 1] == s[i]);
                assert forall|k: int| 0 <= k < i - 1 implies (#[trigger] rest[k]).id@ != id by {
                    assert(s[k + 1].id@ != id);
                }
            }
        }
    }
}

/// What is uninstalled under an id: the first registry record that has it, by its
/// quiet command where it has one; else the first Store package that has it, by
/// its full name; else nothing.
pub proof fn a_record_comes_before_a_package(
    registry: &Vec<RawRegistryApp>,
    msix: &Vec<RawMsixApp>,
    id: &str,
    r: Result<UninstallTarget, String>,
)
    requires
        call_ensures(uninstall_target, (registry, msix, id), r),
    ensures
        r is Err <==> (forall|k: int|
            0 <= k < registry@.len() ==> (#[trigger] registry@[k]).id@ != id@) && (forall|k: int|
            0 <= k < msix@.len() ==> (#[trigger] msix@[k]).id@ != id@),
        forall|i: int|
            0 <= i < registry@.len() && (#[trigger] registry@[i]).id@ == id@ && (forall|k: int|
                0 <= k < i ==> (#[trigger] registry@[k]).id@ != id@) ==> r is Ok && {
                let t = r->Ok_0;
                let x = registry@[i];
                &&& !t.is_msix
                &&& t.install_location@ == x.install_location@
                &&& t.name@ == x.name@
                &&& t.publisher@ == x.publisher@
                &&& t.full_name@.len() == 0
                &&& x.quiet_uninstall_string@.len() > 0 ==> t.command@ == x.quiet_uninstall_string@
                &&& x.quiet_uninstall_string@.len() == 0 ==> t.command@ == x.uninstall_string@
            },
        (forall|k: int| 0 <= k < registry@.len() ==> (#[trigger] registry@[k]).id@ != id@)
            ==> forall|i: int|
            0 <= i < msix@.len() && (#[trigger] msix@[i]).id@ == id@ && (forall|k: int|
                0 <= k < i ==> (#[trigger] msix@[k]).id@ != id@) ==> r is Ok && {
                let t = r->Ok_0;
                let x = msix@[i];
                &&& t.is_msix
                &&& t.install_location@ == x.install_location@
                &&& t.name@ == x.name@
                &&& t.publisher@ == x.publisher@
                &&& t.full_name@ == x.id@
                &&& t.command@.len() == 0
            },
{
    registered_holds(registry@, id@);
    packaged_holds(msix@, id@);
}

/// An entry is gone once nothing of its kind has its id any more; Store packages
/// that cannot be listed count as gone.
pub proof fn an_entry_is_gone_once_nothing_has_its_id(
    is_msix: bool,
    registry: &Vec<RawRegistryApp>,
    msix: &Option<Vec<RawMsixApp>>,
    id: &str,
    r: bool,
)
    requires
        call_ensures(entry_is_gone, (is_msix, registry, msix, id), r),
    ensures
        !is_msix ==> (r <==> forall|k: int|
            0 <= k < registry@.len() ==> (#[trigger] registry@[k]).id@ != id@),
        is_msix && *msix is None ==> r,
        is_msix && *msix is Some ==> (r <==> forall|k: int|
            0 <= k < msix->0@.len() ==> (#[trigger] msix->0@[k]).id@ != id@),
{
}

/// The leftover roots have their labels, in the order in which they are looked
/// through.
pub proof fn leftover_roots_have_their_labels(r: Vec<&'static str>)
    requires
        call_ensures(root_labels, (), r),
    ensures
        r@.len() == 5,
        r@[0]@ == "Local AppData"@,
        r@[1]@ == "Roaming AppData"@,
        r@[2]@ == "LocalLow AppData"@,
        r@[3]@ == "ProgramData"@,
        r@[4]@ == "Store package data"@,
{
}

/// After an uninstall leftovers are looked for by the application's name, its
/// publisher, the last part of where it was installed, and its package where it
/// came from the Store.
pub proof fn leftovers_are_matched_by_the_application(t: &UninstallTarget, r: AppIdentity)
    requires
        call_ensures(identity_of, (t,), r),
    ensures
        r.display_name@ == t.name@,
        r.publisher@ == t.publisher@,
        t.is_msix ==> r.family_name@ == t.full_name@,
        !t.is_msix ==> r.family_name@.len() == 0,
        r.install_folder@ == last_segment(t.install_location@),
{
}

/// One seed stands for each record and each package, in order: first the records
/// of the registry, then the packages of the Store.
pub proof fn every_source_is_seeded(
    registry: &Vec<RawRegistryApp>,
    last_used: &Vec<Option<i64>>,
    msix: &Vec<RawMsixApp>,
    out: Vec<(AppEntry, AppIdentity)>,
)
    requires
        last_used@.len() == registry@.len(),
        registry@.len() + msix@.len() <= usize::MAX,
        call_ensures(seed_all, (registry, last_used, msix), out),
    ensures
        out@.len() == registry@.len() + msix@.len(),
        forall|i: int|
            0 <= i < registry@.len() ==> (#[trigger] out@[i]).0.id@ == registry@[i].id@
                && out@[i].0.name@ == registry@[i].name@ && out@[i].1.display_name@
                == registry@[i].name@ && out@[i].1.publisher@ == registry@[i].publisher@
                && out@[i].1.family_name@.len() == 0 && out@[i].0.last_used == last_used@[i],
        forall|i: int|
            registry@.len() <= i < out@.len() ==> {
                let m = msix@[i - registry@.len()];
                (#[trigger] out@[i]).0.id@ == m.id@ && out@[i].0.name@ == m.name@
                    && out@[i].1.display_name@ == m.name@ && out@[i].1.publisher@ == m.publisher@
                    && out@[i].1.family_name@ == m.family_name@
            },
{
}

} // verus!
