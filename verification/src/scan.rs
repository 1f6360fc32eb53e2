//! The life cycle of scans: one current generation, cooperative cancellation,
//! a finished tree that is swapped in only by the current generation, and a
//! sticky record of the last completion.
//!
//! The library decides; the caller runs the threads. Every step is a function
//! from the state and what happened to the next state and what to do.
use crate::catalog::HostOs;
use crate::platform::DirEntryData;
use crate::progress::{Progress, ProgressEvent};
use crate::text;
use vstd::prelude::*;

verus! {

// ---------------------------------------------------------------------------
// Targets
// ---------------------------------------------------------------------------

/// What a scan covers.
#[derive(Debug)]
pub enum ScanTarget {
    /// Every fixed drive.
    ThisPc,
    /// One folder, its path ending in a separator.
    Folder(String),
}

/// A path separator.
pub open spec fn is_sep(c: char) -> bool {
    c == '\\' || c == '/'
}

/// The text without trailing separators; only backslashes count where `posix`
/// separators do not.
pub open spec fn no_tail_seps(s: Seq<char>, posix: bool) -> Seq<char>
    decreases s.len(),
{
    if s.len() > 0 && (s.last() == '\\' || (posix && s.last() == '/')) {
        no_tail_seps(s.drop_last(), posix)
    } else {
        s
    }
}

/// The separator of a host.
pub open spec fn host_sep(host: HostOs) -> char {
    match host {
        HostOs::MacOs => '/',
        HostOs::Windows => '\\',
    }
}

/// The two spellings that name the whole machine, without regard to ASCII case.
pub open spec fn names_this_pc(s: Seq<char>) -> bool {
    text::lower(s) == "thispc"@ || text::lower(s) == "this pc"@
}

/// The folder a target names: without trailing separators, then one of the
/// host's.
pub open spec fn target_folder(s: Seq<char>, host: HostOs) -> Seq<char> {
    no_tail_seps(s, true).push(host_sep(host))
}

/// Removes trailing separators and adds one.
fn close_path(s: &str, posix: bool, sep: char) -> (r: String)
    ensures
        r@ == no_tail_seps(s@, posix).push(sep),
{
    let cs = text::chars_of(s);
    let mut to: usize = cs.len();
    assert(cs@.take(to as int) =~= cs@);
    while to > 0 && (cs[to - 1] == '\\' || (posix && cs[to - 1] == '/'))
        invariant
            to <= cs.len(),
            no_tail_seps(cs@, posix) == no_tail_seps(cs@.take(to as int), posix),
        decreases to,
    {
        assert(cs@.take(to as int).drop_last() =~= cs@.take(to - 1));
        to -= 1;
    }
    let kept = text::slice_chars(cs.as_slice(), 0, to);
    assert(kept@ =~= cs@.take(to as int));
    let mut out = text::string_of(kept.as_slice());
    out.push(sep);
    out
}

/// Parses a scan target: `"ThisPC"`, a drive root, or a folder. A folder ends in
/// the host's separator.
pub fn parse_target(s: &str, host: HostOs) -> (r: ScanTarget)
    ensures
        match r {
            ScanTarget::ThisPc => names_this_pc(s@),
            ScanTarget::Folder(p) => !names_this_pc(s@) && p@ == target_folder(s@, host),
        },
{
    let cs = text::chars_of(s);
    let folded = text::to_lower(cs.as_slice());
    let one = text::chars_of("thispc");
    let two = text::chars_of("this pc");
    if text::same_chars(folded.as_slice(), one.as_slice()) || text::same_chars(
        folded.as_slice(),
        two.as_slice(),
    ) {
        return ScanTarget::ThisPc;
    }
    let sep: char = match host {
        HostOs::MacOs => '/',
        HostOs::Windows => '\\',
    };
    ScanTarget::Folder(close_path(s, true, sep))
}

/// The drive root of a turbo target: without trailing separators, then one of the
/// host's. On Windows only backslashes are trimmed.
pub open spec fn turbo_root(s: Seq<char>, host: HostOs) -> Seq<char> {
    no_tail_seps(s, host == HostOs::MacOs).push(host_sep(host))
}

/// The drive root of a turbo target.
pub fn turbo_drive_root(s: &str, host: HostOs) -> (r: String)
    ensures
        r@ == turbo_root(s@, host),
{
    match host {
        HostOs::MacOs => close_path(s, true, '/'),
        HostOs::Windows => close_path(s, false, '\\'),
    }
}

/// A folder target ends in exactly one separator, that of the host.
pub proof fn target_ends_in_one_separator(s: Seq<char>, host: HostOs)
    ensures
        target_folder(s, host).len() > 0,
        target_folder(s, host).last() == host_sep(host),
        target_folder(s, host).drop_last().len() > 0 ==> !is_sep(
            target_folder(s, host).drop_last().last(),
        ),
{
    tail_is_clean(s);
    assert(target_folder(s, host).drop_last() =~= no_tail_seps(s, true));
}

proof fn tail_is_clean(s: Seq<char>)
    ensures
        no_tail_seps(s, true).len() > 0 ==> !is_sep(no_tail_seps(s, true).last()),
    decreases s.len(),
{
    if s.len() > 0 && is_sep(s.last()) {
        tail_is_clean(s.drop_last());
    }
}

// ---------------------------------------------------------------------------
// State
// ---------------------------------------------------------------------------

/// Logical bytes, bytes on disk, files and folders of a finished scan.
pub type Stats = (u64, u64, u64, u64);

/// The last completed scan.
#[derive(Debug)]
pub struct LastDone {
    /// The generation that finished.
    pub generation: u64,
    /// Root stats when the scan succeeded.
    pub stats: Option<Stats>,
    /// Reason when the scan did not produce a tree.
    pub error: Option<String>,
}

/// Announcement of a finished scan.
#[derive(Debug)]
pub struct ScanDone {
    /// The generation that finished.
    pub generation: u64,
    /// Root stats when the scan succeeded.
    pub stats: Option<Stats>,
    /// Reason when the scan did not produce a tree.
    pub error: Option<String>,
}

/// A started scan.
#[derive(Clone, Copy, Debug)]
pub struct ScanHandle {
    pub generation: u64,
    /// The scan was asked to stop.
    pub cancelled: bool,
}

/// What the duplicates pipeline shows.
#[derive(Debug)]
pub struct DupesStatus {
    pub running: bool,
    /// Files hashed so far.
    pub progress: Option<u64>,
    /// Total wasted bytes of the last run.
    pub result: Option<u64>,
    pub error: Option<String>,
}

/// The state that scans share. `T` is the finished tree.
pub struct ScanState<T> {
    /// The newest generation.
    pub generation: u64,
    /// The generation that is scanning; 0 when idle.
    pub scanning: u64,
    pub handle: Option<ScanHandle>,
    pub tree: Option<T>,
    /// Generation of the tree (0 without one).
    pub tree_generation: u64,
    pub last_done: LastDone,
    /// Bumped to stop a running duplicates pipeline.
    pub dupes_cancel: u64,
    pub dupes: DupesStatus,
    /// What the running scan has seen; after a scan its last values.
    pub progress: Progress,
}

/// How a scan ended.
pub enum ScanOutcome<T> {
    Done { tree: T, stats: Stats },
    Cancelled,
    RootFailed(String),
}

/// A started scan: its generation and the scan that must stop for it.
pub struct Begun {
    pub generation: u64,
    pub stop: Option<u64>,
}

/// What to do after a scan ended.
pub struct Ended<T> {
    /// Announce this.
    pub announce: Option<ScanDone>,
    /// Drop every cache that is kept per generation.
    pub clear_caches: bool,
    /// A tree to drop in the background.
    pub discard: Option<T>,
}

/// The handle asked to stop.
pub open spec fn stopped(h: Option<ScanHandle>) -> Option<ScanHandle> {
    match h {
        Some(x) => Some(ScanHandle { generation: x.generation, cancelled: true }),
        None => None,
    }
}

impl<T> ScanState<T> {
    /// Nothing scanned yet.
    pub fn new() -> (r: Self)
        ensures
            r.generation == 0,
            r.scanning == 0,
            r.handle is None,
            r.tree is None,
            r.tree_generation == 0,
            r.last_done.generation == 0,
            r.last_done.stats is None,
            r.last_done.error is None,
            r.dupes_cancel == 0,
            !r.dupes.running,
            r.dupes.progress is None,
            r.dupes.result is None,
            r.dupes.error is None,
            r.progress == Progress::nothing(),
    {
        ScanState {
            generation: 0,
            scanning: 0,
            handle: None,
            tree: None,
            tree_generation: 0,
            last_done: LastDone { generation: 0, stats: None, error: None },
            dupes_cancel: 0,
            dupes: DupesStatus { running: false, progress: None, result: None, error: None },
            progress: Progress::new(),
        }
    }

    /// The state after a scan (standard or turbo) began.
    pub open spec fn begun(self) -> ScanState<T> {
        let g = (self.generation + 1) as u64;
        ScanState {
            generation: g,
            scanning: g,
            handle: Some(ScanHandle { generation: g, cancelled: false }),
            dupes_cancel: vstd::wrapping::u64_specs::wrapping_add(self.dupes_cancel, 1),
            dupes: DupesStatus {
                running: self.dupes.running,
                progress: None,
                result: None,
                error: None,
            },
            progress: Progress::nothing(),
            ..self
        }
    }

    /// Begins a scan: the running one is asked to stop, a duplicates run is
    /// cancelled and what it showed is dropped, the progress starts anew, and the
    /// new generation owns the scanning flag.
    pub fn begin(&mut self) -> (r: Begun)
        requires
            old(self).generation < u64::MAX,
        ensures
            *final(self) == old(self).begun(),
            r.generation == final(self).generation,
            r.stop == (match old(self).handle {
                Some(h) => Some(h.generation),
                None => None,
            }),
            final(self).generation == old(self).generation + 1,
            final(self).scanning == old(self).generation + 1,
            final(self).handle == Some(
                ScanHandle { generation: (old(self).generation + 1) as u64, cancelled: false },
            ),
            final(self).tree == old(self).tree,
            final(self).tree_generation == old(self).tree_generation,
            final(self).last_done == old(self).last_done,
            final(self).dupes_cancel != old(self).dupes_cancel,
            final(self).dupes.running == old(self).dupes.running,
            final(self).dupes.progress is None,
            final(self).dupes.result is None,
            final(self).dupes.error is None,
    {
        let stop = match &self.handle {
            Some(h) => Some(h.generation),
            None => None,
        };
        self.dupes_cancel = self.dupes_cancel.wrapping_add(1);
        self.dupes.result = None;
        self.dupes.error = None;
        self.dupes.progress = None;
        self.progress = Progress::new();
        self.generation = self.generation + 1;
        self.scanning = self.generation;
        self.handle = Some(ScanHandle { generation: self.generation, cancelled: false });
        Begun { generation: self.generation, stop }
    }

    /// The state after one generation's scan is over: the flag falls only where
    /// it names that generation.
    pub open spec fn rested(self, generation: u64) -> ScanState<T> {
        ScanState {
            scanning: if self.scanning == generation {
                0
            } else {
                self.scanning
            },
            ..self
        }
    }

    /// Clears the scanning flag where it names the given generation.
    pub fn end_scanning(&mut self, generation: u64)
        ensures
            *final(self) == old(self).rested(generation),
            old(self).scanning == generation ==> final(self).scanning == 0,
            old(self).scanning != generation ==> final(self).scanning == old(self).scanning,
            final(self).generation == old(self).generation,
            final(self).tree == old(self).tree,
            final(self).handle == old(self).handle,
    {
        if self.scanning == generation {
            self.scanning = 0;
        }
    }

    /// The state after a cancel request.
    pub open spec fn halted(self) -> ScanState<T> {
        match self.handle {
            Some(h) => ScanState { handle: stopped(self.handle), ..self.rested(h.generation) },
            None => self,
        }
    }

    /// Asks the started scan to stop; its tree will not be swapped in, and the
    /// flag falls at once. Returns whether the scan was still running.
    pub fn cancel_scan(&mut self) -> (r: bool)
        ensures
            *final(self) == old(self).halted(),
            r == (old(self).handle matches Some(h) && h.generation == old(self).scanning),
            final(self).tree == old(self).tree,
            final(self).generation == old(self).generation,
            final(self).tree_generation == old(self).tree_generation,
            final(self).last_done == old(self).last_done,
            old(self).handle is None ==> *final(self) == *old(self),
            old(self).handle matches Some(h) ==> final(self).handle matches Some(k) && k.cancelled
                && k.generation == h.generation,
            r ==> final(self).scanning == 0,
            !r ==> final(self).scanning == old(self).scanning,
    {
        match self.handle {
            Some(h) => {
                let running = self.scanning == h.generation;
                self.handle = Some(ScanHandle { generation: h.generation, cancelled: true });
                self.end_scanning(h.generation);
                running
            },
            None => false,
        }
    }

    /// The state after a finished tree was offered: the current generation's
    /// replaces what was there, any other is refused.
    pub open spec fn swapped(self, tree: T, generation: u64) -> ScanState<T> {
        if generation == self.generation {
            ScanState { tree: Some(tree), tree_generation: generation, ..self }
        } else {
            self
        }
    }

    /// Swaps a finished tree in; returns the tree to drop: the old one, or the
    /// offered one where it is not of the current generation.
    pub fn swap_tree(&mut self, new: T, generation: u64) -> (r: Option<T>)
        ensures
            *final(self) == old(self).swapped(new, generation),
            r == (if generation == old(self).generation {
                old(self).tree
            } else {
                Some(new)
            }),
            generation == old(self).generation ==> final(self).tree == Some(new) && final(self).tree_generation == generation,
            generation != old(self).generation ==> final(self).tree == old(self).tree && final(self).tree_generation == old(self).tree_generation,
            final(self).generation == old(self).generation,
            final(self).scanning == old(self).scanning,
    {
        if generation != self.generation {
            return Some(new);
        }
        let mut slot: Option<T> = Some(new);
        std::mem::swap(&mut slot, &mut self.tree);
        self.tree_generation = generation;
        slot
    }

    /// The state after a scan ended.
    pub open spec fn ended(self, generation: u64, outcome: ScanOutcome<T>) -> ScanState<T> {
        let s = self.rested(generation);
        match outcome {
            ScanOutcome::Done { tree, stats } => ScanState {
                last_done: LastDone { generation, stats: Some(stats), error: None },
                ..s.swapped(tree, generation)
            },
            ScanOutcome::Cancelled => s,
            ScanOutcome::RootFailed(reason) => ScanState {
                last_done: LastDone { generation, stats: None, error: Some(reason) },
                ..s
            },
        }
    }

    /// Ends a scan. A finished tree is offered for the swap and the completion
    /// is recorded, with the figures of the scan that finished, before it is
    /// announced; a cancelled scan leaves tree and record alone and announces
    /// nothing.
    pub fn finish(&mut self, generation: u64, outcome: ScanOutcome<T>) -> (r: Ended<T>)
        ensures
            *final(self) == old(self).ended(generation, outcome),
            match outcome {
                ScanOutcome::Done { tree, stats } => {
                    &&& r.announce == Some(
                        ScanDone { generation, stats: Some(stats), error: None },
                    )
                    &&& r.clear_caches
                    &&& r.discard == (if generation == old(self).generation {
                        old(self).tree
                    } else {
                        Some(tree)
                    })
                },
                ScanOutcome::Cancelled => r.announce is None && !r.clear_caches && r.discard is None,
                ScanOutcome::RootFailed(reason) => {
                    &&& r.announce == Some(
                        ScanDone { generation, stats: None, error: Some(reason) },
                    )
                    &&& !r.clear_caches
                    &&& r.discard is None
                },
            },
            final(self).generation == old(self).generation,
            final(self).scanning == (if old(self).scanning == generation {
                0
            } else {
                old(self).scanning
            }),
            outcome is Done && generation == old(self).generation ==> final(self).tree == Some(
                outcome->tree,
            ) && final(self).tree_generation == generation,
            !(outcome is Done && generation == old(self).generation) ==> final(self).tree == old(self).tree && final(self).tree_generation == old(self).tree_generation,
            outcome is Done ==> final(self).last_done.generation == generation && final(self).last_done.stats == Some(outcome->stats) && final(self).last_done.error is None,
            outcome is Cancelled ==> final(self).last_done == old(self).last_done,
            outcome matches ScanOutcome::RootFailed(why) ==> final(self).last_done.generation
                == generation && final(self).last_done.stats is None && final(self).last_done.error == Some(why),
    {
        self.end_scanning(generation);
        match outcome {
            ScanOutcome::Done { tree, stats } => {
                let discard = self.swap_tree(tree, generation);
                self.last_done = LastDone { generation, stats: Some(stats), error: None };
                Ended {
                    announce: Some(ScanDone { generation, stats: Some(stats), error: None }),
                    clear_caches: true,
                    discard,
                }
            },
            ScanOutcome::Cancelled => Ended { announce: None, clear_caches: false, discard: None },
            ScanOutcome::RootFailed(reason) => {
                let again = reason.clone();
                self.last_done = LastDone { generation, stats: None, error: Some(again) };
                Ended {
                    announce: Some(ScanDone { generation, stats: None, error: Some(reason) }),
                    clear_caches: false,
                    discard: None,
                }
            },
        }
    }

    /// Records that the running scan listed one more directory.
    pub fn see(&mut self, path: &str, entries: &[DirEntryData], denied: bool)
        ensures
            *final(self) == (ScanState { progress: final(self).progress, ..*old(self) }),
            final(self).progress.follows(old(self).progress, path@, entries@, denied),
    {
        self.progress.see(path, entries, denied);
    }

    /// The tick of one generation's progress ticker: the current generation and
    /// what was seen so far, or nothing once another generation (or none) owns the
    /// flag.
    pub fn tick(&self, generation: u64) -> (r: Option<ProgressEvent>)
        ensures
            r == (if self.scanning == generation {
                Some(ProgressEvent { generation: self.generation, progress: self.progress })
            } else {
                None
            }),
    {
        if self.scanning == generation {
            Some(ProgressEvent { generation: self.generation, progress: self.progress.copy() })
        } else {
            None
        }
    }
}

/// The answer to a status request.
#[derive(Debug)]
pub struct StatusResponse {
    /// Current generation.
    pub generation: u64,
    /// Whether a scan is running.
    pub scanning: bool,
    /// Whether a finished tree exists.
    pub has_tree: bool,
    /// What the running scan has seen; after a scan its last values.
    pub progress: Progress,
    /// The last completed scan.
    pub last_done: Option<LastDone>,
}

impl<T> ScanState<T> {
    /// Answers a status request.
    pub fn get_status(&self) -> (r: StatusResponse)
        ensures
            r.generation == self.generation,
            r.scanning == (self.scanning != 0),
            r.has_tree == (self.tree is Some),
            r.progress == self.progress,
            r.last_done == Some(self.last_done),
    {
        StatusResponse {
            generation: self.generation,
            scanning: self.scanning != 0,
            has_tree: self.tree.is_some(),
            progress: self.progress.copy(),
            last_done: Some(
                LastDone {
                    generation: self.last_done.generation,
                    stats: self.last_done.stats,
                    error: match &self.last_done.error {
                        Some(e) => Some(e.clone()),
                        None => None,
                    },
                },
            ),
        }
    }
}

// ---------------------------------------------------------------------------
// Laws
// ---------------------------------------------------------------------------

/// A scan that a newer one superseded never swaps its tree in, whatever it
/// ended with, and leaves the newer scan's flag set.
pub proof fn superseded_scan_changes_no_tree<T>(
    s: ScanState<T>,
    generation: u64,
    outcome: ScanOutcome<T>,
)
    requires
        s.generation < u64::MAX,
        generation <= s.generation,
    ensures
        s.begun().ended(generation, outcome).tree == s.tree,
        s.begun().ended(generation, outcome).tree_generation == s.tree_generation,
        s.begun().ended(generation, outcome).scanning == s.begun().generation,
        s.begun().ended(generation, outcome).generation == s.begun().generation,
{
}

/// Generations grow with every scan, and a begun scan owns the flag until it
/// ends or is cancelled.
pub proof fn a_new_scan_owns_the_state<T>(s: ScanState<T>)
    requires
        s.generation < u64::MAX,
    ensures
        s.begun().generation == s.generation + 1,
        s.begun().scanning == s.begun().generation,
        s.begun().handle == Some(
            ScanHandle { generation: s.begun().generation, cancelled: false },
        ),
        s.begun().tree == s.tree,
        s.begun().dupes.result is None,
        s.begun().progress == Progress::nothing(),
{
}

/// The progress of a scan is still there after it ended or was cancelled; only
/// the next scan starts anew.
pub proof fn progress_outlives_the_scan<T>(
    s: ScanState<T>,
    generation: u64,
    outcome: ScanOutcome<T>,
)
    ensures
        s.ended(generation, outcome).progress == s.progress,
        s.halted().progress == s.progress,
{
}

/// The current scan's finished tree is what readers then see, under its own
/// generation, and its stats are what a status request replays.
pub proof fn finished_scan_is_visible<T>(s: ScanState<T>, tree: T, stats: Stats)
    ensures
        s.ended(s.generation, ScanOutcome::Done { tree, stats }).tree == Some(tree),
        s.ended(s.generation, ScanOutcome::Done { tree, stats }).tree_generation == s.generation,
        s.ended(s.generation, ScanOutcome::Done { tree, stats }).last_done.generation
            == s.generation,
        s.ended(s.generation, ScanOutcome::Done { tree, stats }).last_done.stats == Some(stats),
{
}

/// Cancelling keeps the previous tree visible and is idempotent.
pub proof fn cancelling_keeps_the_tree<T>(s: ScanState<T>)
    ensures
        s.halted().tree == s.tree,
        s.halted().tree_generation == s.tree_generation,
        s.halted().last_done == s.last_done,
        s.halted().halted() == s.halted(),
{
}

// ---------------------------------------------------------------------------
// Turbo
// ---------------------------------------------------------------------------

/// The answer to a turbo request without elevation.
pub open spec fn elevation_text() -> Seq<char> {
    "ELEVATION_REQUIRED"@
}

/// Lets a turbo request pass only with elevation.
pub fn turbo_gate(elevated: bool) -> (r: Result<(), String>)
    ensures
        elevated ==> r is Ok,
        !elevated ==> (r matches Err(e) && e@ == elevation_text()),
{
    if elevated {
        Ok(())
    } else {
        Err("ELEVATION_REQUIRED".to_owned())
    }
}

/// What happened in the turbo engine.
pub enum TurboEvent {
    /// The backup privilege was enabled, or not.
    Privilege(bool),
    /// The cancel flag as read before the raw read.
    CancelFlag(bool),
    /// The volume's geometry was read, or why not.
    Geometry(Result<(), String>),
    /// The file table was read, or why not.
    FileTable(Result<(), String>),
    /// A tree was built, or none.
    Built(bool),
}

/// What the turbo engine does next.
pub enum TurboAction {
    CheckCancel,
    ReadGeometry,
    ReadFileTable,
    BuildTree,
    /// Finish with the tree that was built.
    Finish,
    /// Announce the reason, then run the standard engine under the same
    /// generation and the same cancel flag.
    FallBack(String),
    /// Record and announce a failure.
    Fail(String),
}

/// The turbo engine's order of work; every failure before the build falls back
/// to the standard engine with a reason.
pub fn turbo_next(event: TurboEvent) -> (r: TurboAction)
    ensures
        match event {
            TurboEvent::Privilege(true) => r is CheckCancel,
            TurboEvent::Privilege(false) => r matches TurboAction::FallBack(e) && e@
                == "The backup privilege is unavailable on this process."@,
            TurboEvent::CancelFlag(false) => r is ReadGeometry,
            TurboEvent::CancelFlag(true) => r matches TurboAction::FallBack(e) && e@
                == "cancelled"@,
            TurboEvent::Geometry(Ok(_)) => r is ReadFileTable,
            TurboEvent::Geometry(Err(why)) => r == TurboAction::FallBack(why),
            TurboEvent::FileTable(Ok(_)) => r is BuildTree,
            TurboEvent::FileTable(Err(why)) => r == TurboAction::FallBack(why),
            TurboEvent::Built(true) => r is Finish,
            TurboEvent::Built(false) => r matches TurboAction::Fail(e) && e@
                == "The turbo engine produced no tree."@,
        },
{
    match event {
        TurboEvent::Privilege(ok) => {
            if ok {
                TurboAction::CheckCancel
            } else {
                TurboAction::FallBack(
                    "The backup privilege is unavailable on this process.".to_owned(),
                )
            }
        },
        TurboEvent::CancelFlag(set) => {
            if set {
                TurboAction::FallBack("cancelled".to_owned())
            } else {
                TurboAction::ReadGeometry
            }
        },
        TurboEvent::Geometry(r) => match r {
            Ok(_) => TurboAction::ReadFileTable,
            Err(e) => TurboAction::FallBack(e),
        },
        TurboEvent::FileTable(r) => match r {
            Ok(_) => TurboAction::BuildTree,
            Err(e) => TurboAction::FallBack(e),
        },
        TurboEvent::Built(some) => {
            if some {
                TurboAction::Finish
            } else {
                TurboAction::Fail("The turbo engine produced no tree.".to_owned())
            }
        },
    }
}

/// The summary of a turbo scan.
#[derive(Clone, Copy, Debug)]
pub struct TurboReport {
    pub generation: u64,
    /// Records parsed.
    pub records: u64,
    pub torn: u64,
    pub bad: u64,
    pub unreferenced: u64,
    /// Wall time in milliseconds.
    pub ms: u64,
}

// ---------------------------------------------------------------------------
// Development hooks
// ---------------------------------------------------------------------------

/// Development hooks.
#[derive(Debug)]
pub struct DevHooks {
    /// Target to scan at start.
    pub scan: Option<String>,
    /// Visualization to show at start.
    pub mode: Option<String>,
    /// Turbo requested.
    pub turbo: bool,
    /// Compare the two engines.
    pub verify: bool,
    /// Cycle through the views.
    pub tour: bool,
}

/// The environment variables that the hooks read, where they are set.
#[derive(Debug)]
pub struct HookVars {
    pub scan: Option<String>,
    pub mode: Option<String>,
    pub verify: Option<String>,
    pub tour: Option<String>,
}

/// The scan target that the arguments from `i` on leave; `--scan` takes the
/// argument behind it, whatever it says.
pub open spec fn scan_arg(args: Seq<Seq<char>>, i: int, so_far: Option<Seq<char>>) -> Option<
    Seq<char>,
>
    decreases args.len() - i,
{
    if i < 0 || i >= args.len() {
        so_far
    } else if args[i] == "--scan"@ {
        if i + 1 < args.len() {
            scan_arg(args, i + 2, Some(args[i + 1]))
        } else {
            so_far
        }
    } else {
        scan_arg(args, i + 1, so_far)
    }
}

/// Whether the arguments from `i` on ask for turbo.
pub open spec fn turbo_arg(args: Seq<Seq<char>>, i: int) -> bool
    decreases args.len() - i,
{
    if i < 0 || i >= args.len() {
        false
    } else if args[i] == "--scan"@ {
        i + 1 < args.len() && turbo_arg(args, i + 2)
    } else {
        args[i] == "--turbo"@ || turbo_arg(args, i + 1)
    }
}

/// The texts of a list of strings.
pub open spec fn strings(s: Seq<String>) -> Seq<Seq<char>> {
    s.map_values(|x: String| x@)
}

/// The text of a variable that is set and not empty.
pub open spec fn non_empty(v: Option<String>) -> Option<Seq<char>> {
    match v {
        Some(s) => if s@.len() > 0 {
            Some(s@)
        } else {
            None
        },
        None => None,
    }
}

/// The text of an optional string.
pub open spec fn text_of(v: Option<String>) -> Option<Seq<char>> {
    match v {
        Some(s) => Some(s@),
        None => None,
    }
}

/// The variable is set to `1`.
pub open spec fn is_one(v: Option<String>) -> bool {
    v matches Some(s) && s@ == "1"@
}

fn keep_non_empty(v: &Option<String>) -> (r: Option<String>)
    ensures
        text_of(r) == non_empty(*v),
{
    match v {
        Some(s) => {
            if s.as_str().is_empty() {
                None
            } else {
                Some(s.clone())
            }
        },
        None => None,
    }
}

fn set_to_one(v: &Option<String>) -> (r: bool)
    ensures
        r == is_one(*v),
{
    match v {
        Some(s) => text::same_str(s.as_str(), "1"),
        None => false,
    }
}

/// Reads the development hooks from the process arguments and variables;
/// arguments override variables.
pub fn read_dev_hooks(args: &[String], vars: &HookVars) -> (r: DevHooks)
    ensures
        text_of(r.scan) == scan_arg(strings(args@), 0, non_empty(vars.scan)),
        r.turbo == turbo_arg(strings(args@), 0),
        text_of(r.mode) == non_empty(vars.mode),
        r.verify == is_one(vars.verify),
        r.tour == is_one(vars.tour),
{
    let ghost all = strings(args@);
    let mut scan = keep_non_empty(&vars.scan);
    let mut turbo = false;
    let mut i: usize = 0;
    while i < args.len()
        invariant
            i <= args.len(),
            all == strings(args@),
            scan_arg(all, 0, non_empty(vars.scan)) == scan_arg(all, i as int, text_of(scan)),
            turbo_arg(all, 0) == (turbo || turbo_arg(all, i as int)),
        decreases args.len() - i,
    {
        assert(all[i as int] == args@[i as int]@);
        if text::same_str(args[i].as_str(), "--scan") {
            if i + 1 < args.len() {
                assert(all[i + 1] == args@[i + 1]@);
                scan = Some(args[i + 1].clone());
                i += 2;
            } else {
                i += 1;
            }
        } else {
            if text::same_str(args[i].as_str(), "--turbo") {
                turbo = true;
            }
            i += 1;
        }
    }
    DevHooks {
        scan,
        mode: keep_non_empty(&vars.mode),
        turbo,
        verify: set_to_one(&vars.verify),
        tour: set_to_one(&vars.tour),
    }
}

// ---------------------------------------------------------------------------
// What targets and hooks mean
// ---------------------------------------------------------------------------

proof fn tail_seps_hold(s: Seq<char>, posix: bool)
    ensures
        no_tail_seps(s, posix).len() <= s.len(),
        s.take(no_tail_seps(s, posix).len() as int) == no_tail_seps(s, posix),
        forall|i: int|
            no_tail_seps(s, posix).len() <= i < s.len() ==> (#[trigger] s[i] == '\\' || (posix
                && s[i] == '/')),
        no_tail_seps(s, posix).len() > 0 ==> no_tail_seps(s, posix).last() != '\\' && !(posix
            && no_tail_seps(s, posix).last() == '/'),
    decreases s.len(),
{
    if s.len() > 0 && (s.last() == '\\' || (posix && s.last() == '/')) {
        let less = s.drop_last();
        tail_seps_hold(less, posix);
        let n = no_tail_seps(s, posix).len() as int;
        assert(s.take(n) =~= less.take(n));
        assert forall|i: int| n <= i < s.len() implies (#[trigger] s[i] == '\\' || (posix && s[i]
            == '/')) by {
            if i < less.len() {
                assert(less[i] == s[i]);
            }
        }
    } else {
        assert(s.take(s.len() as int) =~= s);
    }
}

/// A target is the whole machine where it says so, in either spelling and any
/// case. Else it is the folder it names: its text with all trailing separators
/// of either family replaced by one, a slash on macOS and a backslash on Windows.
pub proof fn a_target_is_a_folder_or_the_machine(s: &str, host: HostOs, r: ScanTarget)
    requires
        call_ensures(parse_target, (s, host), r),
    ensures
        r is ThisPc <==> text::lower(s@) == "thispc"@ || text::lower(s@) == "this pc"@,
        r matches ScanTarget::Folder(p) ==> {
            let n = p@.len() - 1;
            &&& 0 <= n <= s@.len()
            &&& host is MacOs ==> p@.last() == '/'
            &&& host is Windows ==> p@.last() == '\\'
            &&& p@.take(n) == s@.take(n)
            &&& forall|i: int| n <= i < s@.len() ==> (#[trigger] s@[i] == '\\' || s@[i] == '/')
            &&& n > 0 ==> s@[n - 1] != '\\' && s@[n - 1] != '/'
        },
{
    if let ScanTarget::Folder(p) = r {
        tail_seps_hold(s@, true);
        let k = no_tail_seps(s@, true);
        let n = p@.len() - 1;
        assert(p@.take(n) =~= k);
        if n > 0 {
            assert(k.last() == s@.take(n)[n - 1]);
        }
    }
}

/// The drive root of a turbo target is its text with the trailing separators
/// replaced by one of the host's; on Windows a trailing slash is no separator.
pub proof fn a_turbo_root_ends_in_one_separator(s: &str, host: HostOs, r: String)
    requires
        call_ensures(turbo_drive_root, (s, host), r),
    ensures
        ({
            let n = r@.len() - 1;
            &&& 0 <= n <= s@.len()
            &&& host is MacOs ==> r@.last() == '/'
            &&& host is Windows ==> r@.last() == '\\'
            &&& r@.take(n) == s@.take(n)
            &&& forall|i: int|
                n <= i < s@.len() ==> (#[trigger] s@[i] == '\\' || (host is MacOs && s@[i] == '/'))
            &&& n > 0 ==> s@[n - 1] != '\\' && !(host is MacOs && s@[n - 1] == '/')
        }),
{
    let posix = host == HostOs::MacOs;
    tail_seps_hold(s@, posix);
    let k = no_tail_seps(s@, posix);
    let n = r@.len() - 1;
    assert(r@.take(n) =~= k);
    if n > 0 {
        assert(k.last() == s@.take(n)[n - 1]);
    }
}

proof fn no_scan_arg(args: Seq<Seq<char>>, i: int, so_far: Option<Seq<char>>)
    requires
        0 <= i <= args.len(),
        forall|k: int| i <= k < args.len() ==> #[trigger] args[k] != "--scan"@,
    ensures
        scan_arg(args, i, so_far) == so_far,
        turbo_arg(args, i) <==> exists|k: int|
            i <= k < args.len() && #[trigger] args[k] == "--turbo"@,
    decreases args.len() - i,
{
    if i < args.len() {
        assert(args[i] != "--scan"@);
        no_scan_arg(args, i + 1, so_far);
    }
}

/// Without `--scan` among the arguments the target is that of the variable, where
/// it is not empty, and turbo is asked for exactly by `--turbo`. `--scan` in front
/// takes the argument behind it for the target, which a later one replaces.
pub proof fn hooks_come_from_arguments_and_variables(args: &[String], vars: &HookVars, r: DevHooks)
    requires
        call_ensures(read_dev_hooks, (args, vars), r),
    ensures
        (forall|k: int| 0 <= k < args@.len() ==> (#[trigger] args@[k])@ != "--scan"@) ==> {
            &&& r.turbo <==> exists|k: int|
                0 <= k < args@.len() && (#[trigger] args@[k])@ == "--turbo"@
            &&& r.scan is Some <==> vars.scan is Some && vars.scan->0@.len() > 0
            &&& r.scan is Some ==> r.scan->0@ == vars.scan->0@
        },
        args@.len() >= 2 && args@[0]@ == "--scan"@ && (forall|k: int|
            2 <= k < args@.len() ==> (#[trigger] args@[k])@ != "--scan"@) ==> {
            &&& r.scan is Some && r.scan->0@ == args@[1]@
            &&& r.turbo <==> exists|k: int|
                2 <= k < args@.len() && (#[trigger] args@[k])@ == "--turbo"@
        },
        r.mode is Some <==> vars.mode is Some && vars.mode->0@.len() > 0,
        r.mode is Some ==> r.mode->0@ == vars.mode->0@,
        r.verify <==> vars.verify is Some && vars.verify->0@ == "1"@,
        r.tour <==> vars.tour is Some && vars.tour->0@ == "1"@,
{
    let all = strings(args@);
    assert forall|k: int| 0 <= k < args@.len() implies #[trigger] all[k] == args@[k]@ by {}
    if forall|k: int| 0 <= k < args@.len() ==> (#[trigger] args@[k])@ != "--scan"@ {
        no_scan_arg(all, 0, non_empty(vars.scan));
        if turbo_arg(all, 0) {
            let k = choose|k: int| 0 <= k < all.len() && #[trigger] all[k] == "--turbo"@;
            assert(args@[k]@ == "--turbo"@);
        }
        if exists|k: int| 0 <= k < args@.len() && (#[trigger] args@[k])@ == "--turbo"@ {
            let k = choose|k: int| 0 <= k < args@.len() && (#[trigger] args@[k])@ == "--turbo"@;
            assert(all[k] == "--turbo"@);
        }
    }
    if args@.len() >= 2 && args@[0]@ == "--scan"@ && (forall|k: int|
        2 <= k < args@.len() ==> (#[trigger] args@[k])@ != "--scan"@) {
        assert(all[0] == "--scan"@);
        assert(all[1] == args@[1]@);
        no_scan_arg(all, 2, Some(all[1]));
        if turbo_arg(all, 2) {
            let k = choose|k: int| 2 <= k < all.len() && #[trigger] all[k] == "--turbo"@;
            assert(args@[k]@ == "--turbo"@);
        }
        if exists|k: int| 2 <= k < args@.len() && (#[trigger] args@[k])@ == "--turbo"@ {
            let k = choose|k: int| 2 <= k < args@.len() && (#[trigger] args@[k])@ == "--turbo"@;
            assert(all[k] == "--turbo"@);
        }
    }
}

/// A ticker speaks for its own scan alone.
pub proof fn a_ticker_stops_with_its_scan<T>(s: &ScanState<T>, g: u64, r: Option<ProgressEvent>)
    requires
        call_ensures(ScanState::<T>::tick, (s, g), r),
    ensures
        r is Some <==> s.scanning == g,
        r matches Some(e) ==> e.generation == s.generation && e.progress == s.progress,
{
}

/// A status tells the newest generation, whether it scans, and whether there is
/// a tree.
pub proof fn a_status_tells_the_state<T>(s: &ScanState<T>, r: StatusResponse)
    requires
        call_ensures(ScanState::<T>::get_status, (s,), r),
    ensures
        r.generation == s.generation,
        r.scanning <==> s.scanning > 0,
        r.has_tree <==> s.tree is Some,
        r.progress == s.progress,
        r.last_done == Some(s.last_done),
{
}

/// The fast engine needs elevation.
pub proof fn the_fast_engine_needs_elevation(elevated: bool, r: Result<(), String>)
    requires
        call_ensures(turbo_gate, (elevated,), r),
    ensures
        r is Ok <==> elevated,
        r matches Err(e) ==> e@ == "ELEVATION_REQUIRED"@,
{
}

/// The fast engine goes on where a step went well. Before the tree is built a
/// failed step leads to the standard engine, with its reason; a build without a
/// tree is a failure.
pub proof fn the_fast_engine_falls_back(event: TurboEvent, r: TurboAction)
    requires
        call_ensures(turbo_next, (event,), r),
    ensures
        r is FallBack <==> event == TurboEvent::Privilege(false) || event
            == TurboEvent::CancelFlag(true) || (event matches TurboEvent::Geometry(g) && g is Err)
            || (event matches TurboEvent::FileTable(f) && f is Err),
        r is Fail <==> event == TurboEvent::Built(false),
        r is CheckCancel <==> event == TurboEvent::Privilege(true),
        r is ReadGeometry <==> event == TurboEvent::CancelFlag(false),
        r is ReadFileTable <==> (event matches TurboEvent::Geometry(g) && g is Ok),
        r is BuildTree <==> (event matches TurboEvent::FileTable(f) && f is Ok),
        r is Finish <==> event == TurboEvent::Built(true),
        event matches TurboEvent::Geometry(Err(why)) ==> r matches TurboAction::FallBack(e) && e@
            == why@,
        event matches TurboEvent::FileTable(Err(why)) ==> r matches TurboAction::FallBack(e) && e@
            == why@,
{
}

} // verus!
