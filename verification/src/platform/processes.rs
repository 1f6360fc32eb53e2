//! Windows processes: closing those below a folder, running an uninstaller, and
//! the raw figures of the machine.
use vstd::prelude::*;

use crate::bytes;
use crate::locate;
use crate::platform::registry;
use crate::platform::volumes;
use crate::platform::{CpuTicks, RawMonitor, VolumeSample};
use crate::rollup;
use crate::text;

verus! {

// ---------------------------------------------------------------------------
// Closing processes
// ---------------------------------------------------------------------------

/// A path in the form in which images are compared: lower case, backslashes,
/// none at the end.
pub open spec fn plain(s: Seq<char>) -> Seq<char> {
    locate::no_tail_slash(locate::backslashed(text::lower(s)))
}

/// Brings a path into the form in which images are compared.
pub fn normalize_for_compare(path: &str) -> (r: String)
    ensures
        r@ == plain(path@),
{
    let cs = text::chars_of(path);
    let mut out: Vec<char> = Vec::new();
    let mut i: usize = 0;
    while i < cs.len()
        invariant
            i <= cs.len(),
            out@ == locate::backslashed(text::lower(cs@.take(i as int))),
        decreases cs.len() - i,
    {
        let c: char = text::to_lower_char(cs[i]);
        let c: char = if c == '/' {
            '\\'
        } else {
            c
        };
        out.push(c);
        assert(out@ =~= locate::backslashed(text::lower(cs@.take(i + 1))));
        i += 1;
    }
    assert(cs@.take(i as int) =~= cs@);
    let ghost folded = out@;
    let mut to: usize = out.len();
    assert(folded.subrange(0, to as int) =~= folded);
    while to > 0 && out[to - 1] == '\\'
        invariant
            to <= out.len(),
            out@ == folded,
            locate::no_tail_slash(folded) == locate::no_tail_slash(
                folded.subrange(0, to as int),
            ),
        decreases to,
    {
        assert(folded.subrange(0, to as int).drop_last() =~= folded.subrange(0, to - 1));
        to -= 1;
    }
    let kept = text::slice_chars(out.as_slice(), 0, to);
    text::string_of(kept.as_slice())
}

/// An image lies in a folder, at any depth.
pub open spec fn lies_under(image: Seq<char>, dir: Seq<char>) -> bool {
    plain(dir).len() > 0 && plain(dir).push('\\').is_prefix_of(plain(image))
}

/// Whether an image lies in a folder.
pub fn image_under(image: &str, dir: &str) -> (r: bool)
    ensures
        r == lies_under(image@, dir@),
{
    let d = normalize_for_compare(dir);
    let mut head = text::chars_of(d.as_str());
    if head.len() == 0 {
        return false;
    }
    head.push('\\');
    let i = normalize_for_compare(image);
    let cs = text::chars_of(i.as_str());
    text::begins_with(cs.as_slice(), head.as_slice())
}

/// Which windows belong to processes below a folder, and their images, each
/// once.
#[derive(Clone, Debug)]
pub struct ClosePlan {
    /// Positions of the windows.
    pub targets: Vec<usize>,
    /// Their images in the order of first appearance.
    pub closed: Vec<String>,
}

/// The positions whose image is known and lies in the folder.
pub open spec fn targets_in(images: Seq<Option<String>>, dir: Seq<char>) -> Seq<int>
    decreases images.len(),
{
    if images.len() == 0 {
        Seq::empty()
    } else {
        let rest = targets_in(images.drop_last(), dir);
        match images.last() {
            Some(s) => if lies_under(s@, dir) {
                rest.push(images.len() - 1)
            } else {
                rest
            },
            None => rest,
        }
    }
}

/// The images at those positions, each once, in the order of first appearance.
pub open spec fn closed_in(images: Seq<Option<String>>, dir: Seq<char>) -> Seq<Seq<char>>
    decreases images.len(),
{
    if images.len() == 0 {
        Seq::empty()
    } else {
        let rest = closed_in(images.drop_last(), dir);
        match images.last() {
            Some(s) => if lies_under(s@, dir) && !rest.contains(s@) {
                rest.push(s@)
            } else {
                rest
            },
            None => rest,
        }
    }
}

/// Whether a text is among the strings.
fn is_among(list: &Vec<String>, s: &str) -> (r: bool)
    ensures
        r == crate::scan::strings(list@).contains(s@),
{
    let mut i: usize = 0;
    let ghost all = crate::scan::strings(list@);
    while i < list.len()
        invariant
            i <= list.len(),
            all == crate::scan::strings(list@),
            forall|k: int| 0 <= k < i ==> all[k] != s@,
        decreases list.len() - i,
    {
        if text::same_str(list[i].as_str(), s) {
            assert(all[i as int] == s@);
            return true;
        }
        assert(all[i as int] != s@);
        i += 1;
    }
    false
}

/// Picks the windows to close, given the image of each window's process.
pub fn close_processes_under(dir: &str, images: &[Option<String>]) -> (r: ClosePlan)
    ensures
        r.targets@.map_values(|t: usize| t as int) == targets_in(images@, dir@),
        crate::scan::strings(r.closed@) == closed_in(images@, dir@),
{
    let mut targets: Vec<usize> = Vec::new();
    let mut closed: Vec<String> = Vec::new();
    let mut i: usize = 0;
    assert(targets@.map_values(|t: usize| t as int) =~= targets_in(images@.take(0), dir@));
    assert(crate::scan::strings(closed@) =~= closed_in(images@.take(0), dir@));
    while i < images.len()
        invariant
            i <= images.len(),
            targets@.map_values(|t: usize| t as int) == targets_in(images@.take(i as int), dir@),
            crate::scan::strings(closed@) == closed_in(images@.take(i as int), dir@),
        decreases images.len() - i,
    {
        assert(images@.take(i + 1).drop_last() =~= images@.take(i as int));
        let ghost t0 = targets@.map_values(|t: usize| t as int);
        let ghost c0 = crate::scan::strings(closed@);
        match &images[i] {
            Some(image) => {
                if image_under(image.as_str(), dir) {
                    targets.push(i);
                    assert(targets@.map_values(|t: usize| t as int) =~= t0.push(i as int));
                    if !is_among(&closed, image.as_str()) {
                        closed.push(image.clone());
                        assert(crate::scan::strings(closed@) =~= c0.push(image@));
                    }
                }
            },
            None => {},
        }
        i += 1;
    }
    assert(images@.take(i as int) =~= images@);
    ClosePlan { targets, closed }
}

/// What is reported as closed lies in the folder, and nothing is reported
/// twice.
pub proof fn closed_images_lie_under(images: Seq<Option<String>>, dir: Seq<char>)
    ensures
        forall|k: int|
            0 <= k < closed_in(images, dir).len() ==> lies_under(
                #[trigger] closed_in(images, dir)[k],
                dir,
            ),
        closed_in(images, dir).no_duplicates(),
    decreases images.len(),
{
    if images.len() > 0 {
        closed_images_lie_under(images.drop_last(), dir);
    }
}

/// What to do about a process that was asked to close.
#[derive(Clone, Copy, Debug, PartialEq, Eq, Structural)]
pub enum CloseStep {
    /// It is gone.
    Done,
    /// Look again after a pause.
    Wait,
    /// Its time is up.
    Terminate,
}

/// Waits for a process until the deadline, then ends it.
pub fn close_step(exited: bool, past_deadline: bool) -> (r: CloseStep)
    ensures
        r == (if exited {
            CloseStep::Done
        } else if past_deadline {
            CloseStep::Terminate
        } else {
            CloseStep::Wait
        }),
{
    if exited {
        CloseStep::Done
    } else if past_deadline {
        CloseStep::Terminate
    } else {
        CloseStep::Wait
    }
}

// ---------------------------------------------------------------------------
// Running an uninstaller
// ---------------------------------------------------------------------------

/// The command line to launch, with its closing NUL; an error for a blank one.
pub fn uninstaller_line(cmd_line: &str) -> (r: Result<Vec<u16>, String>)
    ensures
        match r {
            Ok(u) => !registry::is_blank(cmd_line@) && u@ == text::utf16(cmd_line@).push(0),
            Err(t) => registry::is_blank(cmd_line@) && t@ == "no UninstallString"@,
        },
{
    let cs = text::chars_of(cmd_line);
    let t = text::trim_chars(cs.as_slice());
    if t.len() == 0 {
        return Err("no UninstallString".to_owned());
    }
    Ok(volumes::wide(cmd_line))
}

/// How a launched uninstaller ended.
#[derive(Clone, Debug)]
pub enum LaunchEnd {
    /// It did not start; the system's reason.
    NotStarted(String),
    /// It was still running after an hour.
    TimedOut,
    Exited(u32),
}

/// The exit code of an uninstaller, or why there is none.
pub open spec fn launch_result(end: LaunchEnd) -> Result<i32, Seq<char>> {
    match end {
        LaunchEnd::NotStarted(e) => Err("could not launch the uninstaller: "@ + e@),
        LaunchEnd::TimedOut => Err("the uninstaller did not exit within 1 hour"@),
        LaunchEnd::Exited(code) => if code <= i32::MAX {
            Ok(code as i32)
        } else {
            Err("uninstaller exit code overflow"@)
        },
    }
}

/// The exit code of an uninstaller, or why there is none.
pub fn launch_and_wait_uninstaller(end: &LaunchEnd) -> (r: Result<i32, String>)
    ensures
        crate::platform::outcome(r) == launch_result(*end),
{
    match end {
        LaunchEnd::NotStarted(e) => Err(
            text::join2("could not launch the uninstaller: ", e.as_str()),
        ),
        LaunchEnd::TimedOut => Err("the uninstaller did not exit within 1 hour".to_owned()),
        LaunchEnd::Exited(code) => {
            if *code <= 0x7fff_ffff {
                Ok(*code as i32)
            } else {
                Err("uninstaller exit code overflow".to_owned())
            }
        },
    }
}

// ---------------------------------------------------------------------------
// Process records
// ---------------------------------------------------------------------------

/// Bytes of a process record.
pub const PROC_RECORD: usize = 256;

/// The name of the process in the record at `off`: it is given by a length and
/// an address, and counts only where it lies in the buffer, whose first byte is
/// at `base`.
pub open spec fn proc_name(b: Seq<u8>, base: int, off: int) -> Seq<char> {
    let len = bytes::le(b, off + 0x38, 2) / 2;
    let at = bytes::le(b, off + 0x40, 8) as int;
    if at == 0 || len == 0 || at < base || at + 2 * len > base + b.len() {
        Seq::empty()
    } else {
        text::lossy(bytes::units(b, at - base, len as nat))
    }
}

/// The process in the record at `off`.
pub open spec fn proc_at(b: Seq<u8>, base: int, off: int) -> crate::platform::Proc {
    crate::platform::Proc {
        pid: bytes::le(b, off + 0x50, 4),
        name: proc_name(b, base, off),
        kernel: bytes::le(b, off + 0x30, 8),
        user: bytes::le(b, off + 0x28, 8),
        memory: bytes::le(b, off + 0x90, 8),
    }
}

/// The processes from the record at `off` on; the idle process (id 0) is left
/// out, and a record that does not fit ends the chain.
pub open spec fn procs_from(b: Seq<u8>, base: int, off: int) -> Seq<crate::platform::Proc>
    decreases b.len() - off,
{
    if off + PROC_RECORD > b.len() {
        Seq::empty()
    } else {
        let here = proc_at(b, base, off);
        let head = if here.pid == 0 {
            Seq::empty()
        } else {
            seq![here]
        };
        let step = bytes::le(b, off, 4);
        if step == 0 || off + step > b.len() {
            head
        } else {
            head + procs_from(b, base, off + step)
        }
    }
}

/// The row of the process in the record at `off`.
fn read_proc(b: &[u8], base: u64, off: usize) -> (r: (u32, String, u64, u64, u64))
    requires
        off + PROC_RECORD <= b.len(),
    ensures
        crate::platform::procs(seq![r]) == seq![proc_at(b@, base as int, off as int)],
{
    let len: usize = bytes::u16_at(b, off + 0x38) as usize / 2;
    let at = bytes::u64_at(b, off + 0x40);
    let room: u64 = b.len() as u64;
    let name = if at == 0 || len == 0 || at < base || at - base > room || (2 * len) as u64 > room
        - (at - base) {
        String::new()
    } else {
        let units = bytes::units_at(b, (at - base) as usize, len);
        text::lossy_string(units.as_slice())
    };
    let pid = bytes::u32_at(b, off + 0x50);
    let kernel = bytes::u64_at(b, off + 0x30);
    let user = bytes::u64_at(b, off + 0x28);
    let memory = bytes::u64_at(b, off + 0x90);
    let row = (pid, name, kernel, user, memory);
    assert(crate::platform::procs(seq![row]) =~= seq![proc_at(b@, base as int, off as int)]);
    row
}

/// Reads the processes from the system's buffer, whose first byte is at `base`.
pub fn process_snapshot(buffer: &[u8], base: u64) -> (r: Vec<(u32, String, u64, u64, u64)>)
    ensures
        crate::platform::procs(r@) == procs_from(buffer@, base as int, 0),
{
    let n = buffer.len();
    let mut out: Vec<(u32, String, u64, u64, u64)> = Vec::new();
    let mut off: usize = 0;
    let ghost all = procs_from(buffer@, base as int, 0);
    assert(crate::platform::procs(out@) + all =~= all);
    while off <= n && n - off >= PROC_RECORD
        invariant
            n == buffer.len(),
            all == procs_from(buffer@, base as int, 0),
            all == crate::platform::procs(out@) + procs_from(buffer@, base as int, off as int),
        decreases n - off,
    {
        let row = read_proc(buffer, base, off);
        let ghost before = crate::platform::procs(out@);
        let ghost here = proc_at(buffer@, base as int, off as int);
        let ghost head = if here.pid == 0 {
            Seq::<crate::platform::Proc>::empty()
        } else {
            seq![here]
        };
        proof {
            assert(crate::platform::procs(seq![row])[0] == here);
        }
        if row.0 != 0 {
            out.push(row);
        }
        assert(crate::platform::procs(out@) =~= before + head);
        let step = bytes::u32_at(buffer, off) as usize;
        if step == 0 || step > n - off {
            return out;
        }
        let ghost tail = procs_from(buffer@, base as int, off + step);
        assert(before + (head + tail) =~= (before + head) + tail);
        off = off + step;
    }
    assert(crate::platform::procs(out@) + Seq::<crate::platform::Proc>::empty()
        =~= crate::platform::procs(out@));
    out
}

/// The idle process is never listed.
pub proof fn idle_is_never_listed(b: Seq<u8>, base: int, off: int)
    ensures
        forall|k: int|
            0 <= k < procs_from(b, base, off).len() ==> (#[trigger] procs_from(
                b,
                base,
                off,
            )[k]).pid != 0,
    decreases b.len() - off,
{
    if off + PROC_RECORD <= b.len() {
        let here = proc_at(b, base, off);
        let head = if here.pid == 0 {
            Seq::<crate::platform::Proc>::empty()
        } else {
            seq![here]
        };
        let step = bytes::le(b, off, 4);
        if step != 0 && off + step <= b.len() {
            idle_is_never_listed(b, base, off + step);
            assert(procs_from(b, base, off) == head + procs_from(b, base, off + step));
        } else {
            assert(procs_from(b, base, off) == head);
        }
    }
}

/// The name of the process that compresses memory.
pub open spec fn is_compressor(name: Seq<char>) -> bool {
    text::lower(name) == "memory compression"@ || text::lower(name) == "memcompression"@
}

/// Id of the first process that compresses memory.
pub open spec fn compressor_in(rows: Seq<crate::platform::Proc>) -> Option<nat>
    decreases rows.len(),
{
    if rows.len() == 0 {
        None
    } else if is_compressor(rows[0].name) {
        Some(rows[0].pid)
    } else {
        compressor_in(rows.drop_first())
    }
}

/// Finds the process that compresses memory.
pub fn memory_compression_pid(rows: &Vec<(u32, String, u64, u64, u64)>) -> (r: Option<u32>)
    ensures
        (match r {
            Some(p) => Some(p as nat),
            None => None,
        }) == compressor_in(crate::platform::procs(rows@)),
{
    let mut i: usize = 0;
    let ghost all = crate::platform::procs(rows@);
    assert(all.skip(0) =~= all);
    while i < rows.len()
        invariant
            i <= rows.len(),
            all == crate::platform::procs(rows@),
            compressor_in(all) == compressor_in(all.skip(i as int)),
        decreases rows.len() - i,
    {
        let cs = text::chars_of(rows[i].1.as_str());
        let low = text::to_lower(cs.as_slice());
        let a = text::chars_of("memory compression");
        let b = text::chars_of("memcompression");
        assert(all.skip(i as int)[0] == all[i as int]);
        if text::same_chars(low.as_slice(), a.as_slice()) || text::same_chars(
            low.as_slice(),
            b.as_slice(),
        ) {
            return Some(rows[i].0);
        }
        assert(all.skip(i as int).drop_first() =~= all.skip(i + 1));
        i += 1;
    }
    None
}

// ---------------------------------------------------------------------------
// Network and volumes
// ---------------------------------------------------------------------------

/// One network interface.
#[derive(Clone, Copy, Debug)]
pub struct IfRow {
    pub up: bool,
    /// It stands for hardware.
    pub hardware: bool,
    /// The interface type.
    pub kind: u32,
    pub in_octets: u64,
    pub out_octets: u64,
}

/// The interface counts: it is up, hardware, and Ethernet (6) or wireless (71).
pub open spec fn counts(row: IfRow) -> bool {
    row.up && row.hardware && (row.kind == 6 || row.kind == 71)
}

/// Octets in and out over the interfaces that count.
pub open spec fn octets(rows: Seq<IfRow>) -> (nat, nat)
    decreases rows.len(),
{
    if rows.len() == 0 {
        (0, 0)
    } else {
        let rest = octets(rows.drop_last());
        let row = rows.last();
        if counts(row) {
            (rest.0 + row.in_octets as nat, rest.1 + row.out_octets as nat)
        } else {
            rest
        }
    }
}

/// The sum, or the largest number.
fn capped_sum(a: u64, b: u64) -> (r: u64)
    ensures
        r == rollup::capped(a + b),
{
    if a <= u64::MAX - b {
        a + b
    } else {
        u64::MAX
    }
}

/// Sums the octets over the interfaces that count.
pub fn network_octets(rows: &[IfRow]) -> (r: (u64, u64))
    ensures
        r.0 == rollup::capped(octets(rows@).0 as int),
        r.1 == rollup::capped(octets(rows@).1 as int),
{
    let mut inn: u64 = 0;
    let mut out: u64 = 0;
    let mut i: usize = 0;
    assert(octets(rows@.take(0)) == (0nat, 0nat));
    while i < rows.len()
        invariant
            i <= rows.len(),
            inn == rollup::capped(octets(rows@.take(i as int)).0 as int),
            out == rollup::capped(octets(rows@.take(i as int)).1 as int),
        decreases rows.len() - i,
    {
        let row = rows[i];
        assert(rows@.take(i + 1).drop_last() =~= rows@.take(i as int));
        if row.up && row.hardware && (row.kind == 6 || row.kind == 71) {
            inn = capped_sum(inn, row.in_octets);
            out = capped_sum(out, row.out_octets);
        }
        i += 1;
    }
    assert(rows@.take(i as int) =~= rows@);
    (inn, out)
}

/// What the system says about one drive.
#[derive(Clone, Debug)]
pub struct DriveFacts {
    pub root: String,
    pub drive_type: u32,
    /// Total and free bytes; `None` where the call failed.
    pub space: Option<(u64, u64)>,
    /// The label as it stands in its buffer.
    pub label: Vec<u16>,
}

/// The drive is shown: fixed or removable, and its space is known.
pub open spec fn drive_shown() -> spec_fn(DriveFacts) -> bool {
    |d: DriveFacts|
        (d.drive_type == volumes::DRIVE_FIXED || d.drive_type == volumes::DRIVE_REMOVABLE)
            && d.space is Some
}

/// The samples show the drives, one for one.
pub open spec fn samples_of(v: Seq<VolumeSample>, d: Seq<DriveFacts>) -> bool {
    v.len() == d.len() && forall|i: int|
        #![trigger v[i]]
        0 <= i < v.len() ==> v[i].root@ == d[i].root@ && v[i].label@ == registry::value_text(
            d[i].label@,
        ) && Some((v[i].total, v[i].free)) == d[i].space
}

/// The shown drives with their labels and space.
pub fn volume_samples(drives: &[DriveFacts]) -> (r: Vec<VolumeSample>)
    ensures
        samples_of(r@, drives@.filter(drive_shown())),
{
    let mut out: Vec<VolumeSample> = Vec::new();
    let mut i: usize = 0;
    proof {
        crate::seqs::filter_nothing(drive_shown());
        assert(drives@.take(0) =~= Seq::empty());
    }
    while i < drives.len()
        invariant
            i <= drives.len(),
            samples_of(out@, drives@.take(i as int).filter(drive_shown())),
        decreases drives.len() - i,
    {
        proof {
            crate::seqs::filter_step(drives@, i as int, drive_shown());
        }
        let d = &drives[i];
        if d.drive_type == volumes::DRIVE_FIXED || d.drive_type == volumes::DRIVE_REMOVABLE {
            match d.space {
                Some((total, free)) => {
                    let label = registry::reg_text(d.label.as_slice());
                    out.push(VolumeSample { root: d.root.clone(), label, total, free });
                },
                None => {},
            }
        }
        i += 1;
    }
    assert(drives@.take(i as int) =~= drives@);
    out
}

// ---------------------------------------------------------------------------
// The whole machine
// ---------------------------------------------------------------------------

/// A 64-bit count from its two halves.
pub fn from_halves(high: u32, low: u32) -> (r: u64)
    ensures
        r == high * 0x1_0000_0000 + low,
{
    high as u64 * 0x1_0000_0000 + low as u64
}

/// Counters of the system as a whole.
#[derive(Clone, Copy, Debug)]
pub struct PerfFacts {
    pub threads: u32,
    pub processes: u32,
    pub kernel_paged: u64,
    pub kernel_nonpaged: u64,
    pub system_cache: u64,
    pub commit_total: u64,
    pub commit_limit: u64,
}

/// One snapshot from its parts; a part that could not be had reads as zero.
pub fn monitor_raw(
    ticks: Option<CpuTicks>,
    perf: Option<PerfFacts>,
    memory: Option<(u64, u64)>,
    net: Option<(u64, u64)>,
    compressed_ws: Option<u64>,
    volumes: Vec<VolumeSample>,
    procs: Vec<(u32, String, u64, u64, u64)>,
) -> (r: RawMonitor)
    ensures
        r.ticks == (match ticks {
            Some(t) => t,
            None => (CpuTicks { idle: 0, kernel: 0, user: 0 }),
        }),
        perf matches Some(p) ==> r.threads == p.threads && r.processes == p.processes
            && r.kernel_paged == p.kernel_paged && r.kernel_nonpaged == p.kernel_nonpaged
            && r.system_cache == p.system_cache && r.commit_total == p.commit_total
            && r.commit_limit == p.commit_limit,
        perf is None ==> r.threads == 0 && r.processes == 0 && r.kernel_paged == 0
            && r.kernel_nonpaged == 0 && r.system_cache == 0 && r.commit_total == 0
            && r.commit_limit == 0,
        (r.mem_total, r.mem_available) == (match memory {
            Some(m) => m,
            None => (0u64, 0u64),
        }),
        (r.net_in, r.net_out) == (match net {
            Some(n) => n,
            None => (0u64, 0u64),
        }),
        r.compressed_ws == compressed_ws,
        r.volumes == volumes,
        r.procs == procs,
{
    let p: PerfFacts = match perf {
        Some(p) => p,
        None => PerfFacts {
            threads: 0,
            processes: 0,
            kernel_paged: 0,
            kernel_nonpaged: 0,
            system_cache: 0,
            commit_total: 0,
            commit_limit: 0,
        },
    };
    let (mem_total, mem_available): (u64, u64) = match memory {
        Some(m) => m,
        None => (0, 0),
    };
    let (net_in, net_out): (u64, u64) = match net {
        Some(n) => n,
        None => (0, 0),
    };
    RawMonitor {
        ticks: match ticks {
            Some(t) => t,
            None => CpuTicks { idle: 0, kernel: 0, user: 0 },
        },
        threads: p.threads,
        processes: p.processes,
        mem_total,
        mem_available,
        kernel_paged: p.kernel_paged,
        kernel_nonpaged: p.kernel_nonpaged,
        system_cache: p.system_cache,
        commit_total: p.commit_total,
        commit_limit: p.commit_limit,
        compressed_ws,
        net_in,
        net_out,
        volumes,
        procs,
    }
}

/// Identity of a file: its volume and its index on it.
pub fn hardlink_identity(volume_serial: u32, index_high: u32, index_low: u32) -> (r: (u64, u64))
    ensures
        r == (volume_serial as u64, (index_high * 0x1_0000_0000 + index_low) as u64),
{
    (volume_serial as u64, from_halves(index_high, index_low))
}

// ---------------------------------------------------------------------------
// The processor's name
// ---------------------------------------------------------------------------

/// The four bytes of a word, least significant first.
pub open spec fn word_bytes(w: u32) -> Seq<u8> {
    seq![
        (w % 256) as u8,
        (w / 256 % 256) as u8,
        (w / 65536 % 256) as u8,
        (w / 16777216 % 256) as u8,
    ]
}

/// The pieces one after the other.
pub open spec fn together(pieces: Seq<Seq<char>>) -> Seq<char>
    decreases pieces.len(),
{
    if pieces.len() == 0 {
        Seq::empty()
    } else {
        together(pieces.drop_last()) + pieces.last()
    }
}

/// The name made of the pieces, without white space around it; `None` where
/// nothing is left.
pub fn brand_from(pieces: &[String]) -> (r: Option<String>)
    ensures
        crate::scan::text_of(r) == (if registry::is_blank(
            together(crate::scan::strings(pieces@)),
        ) {
            None
        } else {
            Some(text::trim(together(crate::scan::strings(pieces@))))
        }),
{
    let mut all: String = String::new();
    let mut i: usize = 0;
    let ghost texts = crate::scan::strings(pieces@);
    assert(together(texts.take(0)) =~= Seq::empty());
    while i < pieces.len()
        invariant
            i <= pieces.len(),
            texts == crate::scan::strings(pieces@),
            all@ == together(texts.take(i as int)),
        decreases pieces.len() - i,
    {
        all.append(pieces[i].as_str());
        assert(texts.take(i + 1).drop_last() =~= texts.take(i as int));
        i += 1;
    }
    assert(texts.take(i as int) =~= texts);
    let cs = text::chars_of(all.as_str());
    let t = text::trim_chars(cs.as_slice());
    if t.len() == 0 {
        None
    } else {
        Some(text::string_of(t.as_slice()))
    }
}

/// The decoded words.
pub open spec fn decoded_words(words: Seq<u32>) -> Seq<Seq<char>> {
    words.map_values(|w: u32| text::utf8_lossy(word_bytes(w)))
}

/// The processor's name from the words of its three name leaves; `None` where
/// it has none (`max_leaf` is the highest leaf it answers).
pub fn cpuid_brand(max_leaf: u32, words: &[u32; 12]) -> (r: Option<String>)
    ensures
        crate::scan::text_of(r) == (if max_leaf < 0x8000_0004 || registry::is_blank(
            together(decoded_words(words@)),
        ) {
            None
        } else {
            Some(text::trim(together(decoded_words(words@))))
        }),
{
    if max_leaf < 0x8000_0004 {
        return None;
    }
    let mut pieces: Vec<String> = Vec::new();
    let mut i: usize = 0;
    while i < 12
        invariant
            i <= 12,
            crate::scan::strings(pieces@) == decoded_words(words@.take(i as int)),
        decreases 12 - i,
    {
        let w: u32 = words[i];
        let mut four: Vec<u8> = Vec::new();
        four.push((w % 256) as u8);
        four.push((w / 256 % 256) as u8);
        four.push((w / 65536 % 256) as u8);
        four.push((w / 16777216 % 256) as u8);
        assert(four@ =~= word_bytes(w));
        let piece = text::utf8_lossy_string(four.as_slice());
        let ghost before = crate::scan::strings(pieces@);
        pieces.push(piece);
        assert(crate::scan::strings(pieces@) =~= before.push(piece@));
        assert(decoded_words(words@.take(i + 1)) =~= decoded_words(words@.take(i as int)).push(
            text::utf8_lossy(word_bytes(words@[i as int])),
        ));
        i += 1;
    }
    assert(words@.take(12) =~= words@);
    brand_from(pieces.as_slice())
}

// ---------------------------------------------------------------------------
// Laws
// ---------------------------------------------------------------------------

/// Case, the kind of slash and closing slashes make no difference: the compared
/// form is the path in lower case with backslashes and none of them at the end.
pub proof fn compared_paths_are_folded(path: &str, r: String)
    requires
        call_ensures(normalize_for_compare, (path,), r),
    ensures
        r@.len() <= path@.len(),
        r@.len() > 0 ==> r@.last() != '\\',
        forall|i: int|
            #![trigger r@[i]]
            0 <= i < r@.len() ==> {
                let c = path@[i];
                &&& c == '/' ==> r@[i] == '\\'
                &&& 'A' <= c && c <= 'Z' ==> r@[i] as int == c as int + 32
                &&& c != '/' && !('A' <= c && c <= 'Z') ==> r@[i] == c
            },
        forall|i: int|
            #![trigger path@[i]]
            r@.len() <= i < path@.len() ==> path@[i] == '\\' || path@[i] == '/',
{
    let all = locate::backslashed(text::lower(path@));
    assert(all.len() == path@.len());
    volumes::only_trailing_backslashes_go(all);
    assert forall|i: int| #![trigger path@[i]] r@.len() <= i < path@.len() implies path@[i] == '\\'
        || path@[i] == '/' by {
        assert(all[i] == '\\');
    }
    assert forall|i: int| 0 <= i < r@.len() implies r@[i] == all[i] by {
        assert(all.take(r@.len() as int)[i] == all[i]);
    }
}

/// An image lies in a folder where its path goes on behind the folder's and a
/// backslash; nothing lies in a folder without a name, and no folder in itself.
pub proof fn an_image_lies_behind_its_folder(
    image: &str,
    dir: &str,
    r: bool,
    i: String,
    d: String,
)
    requires
        call_ensures(image_under, (image, dir), r),
        call_ensures(normalize_for_compare, (image,), i),
        call_ensures(normalize_for_compare, (dir,), d),
    ensures
        r <==> 0 < d@.len() < i@.len() && i@[d@.len() as int] == '\\' && forall|k: int|
            0 <= k < d@.len() ==> #[trigger] i@[k] == d@[k],
        i@ == d@ ==> !r,
{
    let head = d@.push('\\');
    if r {
        assert(head =~= i@.take(head.len() as int));
        assert(i@[d@.len() as int] == head[d@.len() as int]);
        assert forall|k: int| 0 <= k < d@.len() implies #[trigger] i@[k] == d@[k] by {
            assert(i@.take(head.len() as int)[k] == head[k]);
        }
    }
    if 0 < d@.len() < i@.len() && i@[d@.len() as int] == '\\' && forall|k: int|
        0 <= k < d@.len() ==> #[trigger] i@[k] == d@[k] {
        assert(head =~= i@.take(head.len() as int));
        assert(head.is_prefix_of(i@));
    }
}

/// Which windows are targets and which images are named.
proof fn plan_places(images: Seq<Option<String>>, dir: Seq<char>)
    ensures
        forall|i: int|
            targets_in(images, dir).contains(i) <==> 0 <= i < images.len() && images[i] is Some
                && lies_under(images[i]->0@, dir),
        forall|a: int, b: int|
            0 <= a < b < targets_in(images, dir).len() ==> #[trigger] targets_in(images, dir)[a]
                < #[trigger] targets_in(images, dir)[b],
        forall|s: Seq<char>|
            #[trigger] closed_in(images, dir).contains(s) <==> exists|i: int|
                0 <= i < images.len() && #[trigger] images[i] is Some && images[i]->0@ == s
                    && lies_under(s, dir),
    decreases images.len(),
{
    if images.len() > 0 {
        let less = images.drop_last();
        let n = images.len() - 1;
        plan_places(less, dir);
        let t0 = targets_in(less, dir);
        let t = targets_in(images, dir);
        let hit = images[n] is Some && lies_under(images[n]->0@, dir);
        assert forall|i: int| t.contains(i) <==> 0 <= i < images.len() && images[i] is Some
            && lies_under(images[i]->0@, dir) by {
            if t.contains(i) {
                let k = choose|k: int| 0 <= k < t.len() && t[k] == i;
                if k < t0.len() {
                    assert(t0[k] == i);
                    assert(t0.contains(i));
                    assert(less[i] == images[i]);
                }
            }
            if 0 <= i < images.len() && images[i] is Some && lies_under(images[i]->0@, dir) {
                if i < n {
                    assert(less[i] == images[i]);
                    assert(t0.contains(i));
                    let k = choose|k: int| 0 <= k < t0.len() && t0[k] == i;
                    assert(t[k] == i);
                } else {
                    assert(t[t0.len() as int] == n);
                }
            }
        }
        assert forall|a: int, b: int| 0 <= a < b < t.len() implies #[trigger] t[a]
            < #[trigger] t[b] by {
            if b < t0.len() {
                assert(t0[a] < t0[b]);
            } else {
                assert(t0.contains(t0[a]));
            }
        }
        let c0 = closed_in(less, dir);
        let c = closed_in(images, dir);
        assert forall|s: Seq<char>| #[trigger] c.contains(s) <==> exists|i: int|
            0 <= i < images.len() && #[trigger] images[i] is Some && images[i]->0@ == s
                && lies_under(s, dir) by {
            if c.contains(s) {
                let k = choose|k: int| 0 <= k < c.len() && c[k] == s;
                if k < c0.len() {
                    assert(c0[k] == s);
                    assert(c0.contains(s));
                    let i = choose|i: int|
                        0 <= i < less.len() && #[trigger] less[i] is Some && less[i]->0@ == s
                            && lies_under(s, dir);
                    assert(images[i] == less[i]);
                } else {
                    assert(images[n] is Some);
                }
            }
            if exists|i: int|
                0 <= i < images.len() && #[trigger] images[i] is Some && images[i]->0@ == s
                    && lies_under(s, dir) {
                let i = choose|i: int|
                    0 <= i < images.len() && #[trigger] images[i] is Some && images[i]->0@ == s
                        && lies_under(s, dir);
                if i < n {
                    assert(less[i] == images[i]);
                    assert(c0.contains(s));
                    let k = choose|k: int| 0 <= k < c0.len() && c0[k] == s;
                    assert(c[k] == s);
                } else if c0.contains(s) {
                    let k = choose|k: int| 0 <= k < c0.len() && c0[k] == s;
                    assert(c[k] == s);
                } else {
                    assert(c[c0.len() as int] == s);
                }
            }
        }
    }
}

/// A window is closed exactly where its image is known and lies in the folder;
/// each image that is closed is named once.
pub proof fn windows_below_a_folder_are_closed(
    dir: &str,
    images: &[Option<String>],
    r: ClosePlan,
    one: int,
    image: &str,
    under: bool,
)
    requires
        call_ensures(close_processes_under, (dir, images), r),
        0 <= one < images@.len(),
        images@[one] is Some,
        images@[one]->0@ == image@,
        call_ensures(image_under, (image, dir), under),
    ensures
        under <==> exists|k: int| 0 <= k < r.targets@.len() && #[trigger] r.targets@[k] == one,
        under <==> exists|k: int| 0 <= k < r.closed@.len() && (#[trigger] r.closed@[k])@ == image@,
        forall|k: int|
            0 <= k < r.targets@.len() ==> #[trigger] r.targets@[k] < images@.len()
                && images@[r.targets@[k] as int] is Some,
        forall|a: int, b: int|
            0 <= a < b < r.targets@.len() ==> #[trigger] r.targets@[a] < #[trigger] r.targets@[b],
        forall|a: int, b: int|
            0 <= a < b < r.closed@.len() ==> (#[trigger] r.closed@[a])@ != (
            #[trigger] r.closed@[b])@,
{
    plan_places(images@, dir@);
    closed_images_lie_under(images@, dir@);
    let t = targets_in(images@, dir@);
    let c = closed_in(images@, dir@);
    let rt = r.targets@.map_values(|t: usize| t as int);
    assert(rt == t);
    assert(rt.len() == r.targets@.len());
    assert forall|k: int| 0 <= k < r.targets@.len() implies #[trigger] r.targets@[k] == t[k] by {
        assert(rt[k] == r.targets@[k] as int);
    }
    let rc = crate::scan::strings(r.closed@);
    assert(rc.len() == r.closed@.len());
    assert forall|k: int| 0 <= k < r.closed@.len() implies (#[trigger] r.closed@[k])@ == c[k] by {
        assert(rc[k] == r.closed@[k]@);
    }
    assert(under == lies_under(image@, dir@));
    if under {
        assert(t.contains(one));
        let k = choose|k: int| 0 <= k < t.len() && t[k] == one;
        assert(r.targets@[k] == one);
        assert(c.contains(image@));
        let j = choose|j: int| 0 <= j < c.len() && c[j] == image@;
        assert(r.closed@[j]@ == image@);
    }
    if exists|k: int| 0 <= k < r.targets@.len() && #[trigger] r.targets@[k] == one {
        let k = choose|k: int| 0 <= k < r.targets@.len() && #[trigger] r.targets@[k] == one;
        assert(t[k] == one);
        assert(t.contains(one));
    }
    if exists|k: int| 0 <= k < r.closed@.len() && (#[trigger] r.closed@[k])@ == image@ {
        let k = choose|k: int| 0 <= k < r.closed@.len() && (#[trigger] r.closed@[k])@ == image@;
        assert(c[k] == image@);
        assert(c.contains(image@));
    }
    assert forall|k: int| 0 <= k < r.targets@.len() implies #[trigger] r.targets@[k] < images@.len()
        && images@[r.targets@[k] as int] is Some by {
        assert(t.contains(t[k]));
    }
}

/// A process that is gone is done with, even past the deadline; one that is
/// still there is ended past it and waited for before.
pub proof fn a_process_is_ended_past_its_deadline(exited: bool, past: bool, r: CloseStep)
    requires
        call_ensures(close_step, (exited, past), r),
    ensures
        exited <==> r == CloseStep::Done,
        !exited && past <==> r == CloseStep::Terminate,
        !exited && !past <==> r == CloseStep::Wait,
{
}

/// A command line is launched unchanged, with a closing NUL, unless it holds
/// white space alone.
pub proof fn a_command_line_is_launched_unchanged(line: &str, r: Result<Vec<u16>, String>)
    requires
        call_ensures(uninstaller_line, (line,), r),
    ensures
        r is Err <==> text::trim(line@).len() == 0,
        r matches Ok(u) ==> u@.len() > 0 && u@.last() == 0 && u@.drop_last() == text::utf16(line@),
        r matches Err(t) ==> t@ == "no UninstallString"@,
{
    if let Ok(u) = r {
        assert(u@.drop_last() =~= text::utf16(line@));
    }
}

/// An uninstaller has an exit code where it ended with one that fits.
pub proof fn an_exit_code_is_reported_where_it_fits(end: &LaunchEnd, r: Result<i32, String>)
    requires
        call_ensures(launch_and_wait_uninstaller, (end,), r),
    ensures
        *end matches LaunchEnd::Exited(code) ==> (r is Ok <==> code <= 0x7fff_ffff),
        *end matches LaunchEnd::Exited(code) ==> r matches Ok(v) ==> v == code,
        *end matches LaunchEnd::Exited(code) ==> r matches Err(t) ==> t@
            == "uninstaller exit code overflow"@,
        *end matches LaunchEnd::NotStarted(e) ==> r matches Err(t) && t@
            == "could not launch the uninstaller: "@ + e@,
        *end is TimedOut ==> (r matches Err(t) && t@
            == "the uninstaller did not exit within 1 hour"@),
{
}

/// A record tells its process: the id at 0x50, the kernel time at 0x30, the user
/// time at 0x28 and the memory at 0x90. The name counts where it lies in the
/// buffer.
pub proof fn a_record_tells_its_process(b: Seq<u8>, base: int, off: int)
    ensures
        ({
            let p = proc_at(b, base, off);
            let units = bytes::le(b, off + 0x38, 2) / 2;
            let at = bytes::le(b, off + 0x40, 8) as int;
            &&& p.pid == bytes::le(b, off + 0x50, 4)
            &&& p.kernel == bytes::le(b, off + 0x30, 8)
            &&& p.user == bytes::le(b, off + 0x28, 8)
            &&& p.memory == bytes::le(b, off + 0x90, 8)
            &&& units > 0 && at != 0 && base <= at && at + 2 * units <= base + b.len() ==> p.name
                == text::lossy(bytes::units(b, at - base, units as nat))
            &&& at == 0 || at < base || at + 2 * units > base + b.len() ==> p.name.len() == 0
        }),
{
}

/// The records of a snapshot: each stands as far behind the one before as that
/// one says, all of them fit, and the last one ends the chain. Every process but
/// the idle one is listed, in their order.
pub proof fn every_process_in_the_chain_is_listed(b: Seq<u8>, base: int, off: int) -> (offs: Seq<
    int,
>)
    requires
        0 <= off,
    ensures
        offs.len() == 0 <==> off + 256 > b.len(),
        offs.len() > 0 ==> offs[0] == off,
        forall|k: int| 0 <= k < offs.len() ==> off <= #[trigger] offs[k] && offs[k] + 256 <= b.len(),
        forall|k: int, j: int|
            #![trigger offs[k], offs[j]]
            0 <= k && j == k + 1 && j < offs.len() ==> offs[j] == offs[k] + bytes::le(
                b,
                offs[k],
                4,
            ) && offs[j] > offs[k],
        offs.len() > 0 ==> bytes::le(b, offs.last(), 4) == 0 || offs.last() + bytes::le(
            b,
            offs.last(),
            4,
        ) + 256 > b.len(),
        procs_from(b, base, off) == offs.filter(
            |o: int| bytes::le(b, o + 0x50, 4) != 0,
        ).map_values(|o: int| proc_at(b, base, o)),
    decreases b.len() - off,
{
    let p = |o: int| bytes::le(b, o + 0x50, 4) != 0;
    let f = |o: int| proc_at(b, base, o);
    if off + PROC_RECORD > b.len() {
        let none = Seq::<int>::empty();
        crate::seqs::filter_nothing(p);
        assert(none.filter(p).map_values(f) =~= Seq::<crate::platform::Proc>::empty());
        none
    } else {
        let step = bytes::le(b, off, 4);
        let one = seq![off];
        crate::seqs::filter_nothing(p);
        crate::seqs::filter_push(Seq::<int>::empty(), off, p);
        assert(Seq::<int>::empty().push(off) =~= one);
        let head = one.filter(p).map_values(f);
        if step == 0 || off + step > b.len() {
            assert(procs_from(b, base, off) =~= head);
            one
        } else {
            let rest = every_process_in_the_chain_is_listed(b, base, off + step);
            let offs = one + rest;
            Seq::filter_distributes_over_add(one, rest, p);
            assert(offs.filter(p).map_values(f) =~= head + rest.filter(p).map_values(f));
            assert(procs_from(b, base, off) =~= head + procs_from(b, base, off + step));
            assert forall|k: int, j: int|
                #![trigger offs[k], offs[j]]
                0 <= k && j == k + 1 && j < offs.len() implies offs[j] == offs[k] + bytes::le(
                b,
                offs[k],
                4,
            ) && offs[j] > offs[k] by {
                if k > 0 {
                    assert(rest[k - 1] == offs[k] && rest[j - 1] == offs[j]);
                }
            }
            if rest.len() > 0 {
                assert(offs.last() == rest.last());
            }
            offs
        }
    }
}

/// The memory compressor is the first process with one of its two names, in any
/// case.
pub proof fn the_first_compressor_is_found(
    rows: &Vec<(u32, String, u64, u64, u64)>,
    r: Option<u32>,
)
    requires
        call_ensures(memory_compression_pid, (rows,), r),
    ensures
        r is None <==> forall|i: int|
            0 <= i < rows@.len() ==> text::lower((#[trigger] rows@[i]).1@)
                != "memory compression"@ && text::lower(rows@[i].1@) != "memcompression"@,
        r matches Some(pid) ==> exists|i: int|
            {
                &&& 0 <= i < rows@.len()
                &&& (#[trigger] rows@[i]).0 == pid
                &&& text::lower(rows@[i].1@) == "memory compression"@ || text::lower(rows@[i].1@)
                    == "memcompression"@
                &&& forall|j: int|
                    0 <= j < i ==> text::lower((#[trigger] rows@[j]).1@)
                        != "memory compression"@ && text::lower(rows@[j].1@) != "memcompression"@
            },
{
    let all = crate::platform::procs(rows@);
    assert(all.len() == rows@.len());
    assert forall|i: int| 0 <= i < rows@.len() implies (#[trigger] all[i]).name == rows@[i].1@
        && all[i].pid == rows@[i].0 by {}
    first_compressor(all);
    if let Some(pid) = r {
        let i = choose|i: int|
            0 <= i < all.len() && (#[trigger] all[i]).pid == pid && is_compressor(all[i].name)
                && forall|j: int| 0 <= j < i ==> !is_compressor((#[trigger] all[j]).name);
        assert(rows@[i].0 == pid);
        assert forall|j: int| 0 <= j < i implies text::lower((#[trigger] rows@[j]).1@)
            != "memory compression"@ && text::lower(rows@[j].1@) != "memcompression"@ by {
            assert(!is_compressor(all[j].name));
        }
    } else {
        assert forall|i: int| 0 <= i < rows@.len() implies text::lower((#[trigger] rows@[i]).1@)
            != "memory compression"@ && text::lower(rows@[i].1@) != "memcompression"@ by {
            assert(!is_compressor(all[i].name));
        }
    }
}

/// Where the first compressor stands.
proof fn first_compressor(all: Seq<crate::platform::Proc>)
    ensures
        compressor_in(all) is None ==> forall|i: int|
            0 <= i < all.len() ==> !is_compressor((#[trigger] all[i]).name),
        compressor_in(all) matches Some(pid) ==> exists|i: int|
            0 <= i < all.len() && (#[trigger] all[i]).pid == pid && is_compressor(all[i].name)
                && forall|j: int| 0 <= j < i ==> !is_compressor((#[trigger] all[j]).name),
    decreases all.len(),
{
    if all.len() > 0 {
        if is_compressor(all[0].name) {
            assert(all[0].pid == compressor_in(all)->0);
        } else {
            let rest = all.drop_first();
            first_compressor(rest);
            if let Some(pid) = compressor_in(rest) {
                let i = choose|i: int|
                    0 <= i < rest.len() && (#[trigger] rest[i]).pid == pid && is_compressor(
                        rest[i].name,
                    ) && forall|j: int| 0 <= j < i ==> !is_compressor((#[trigger] rest[j]).name);
                assert(all[i + 1] == rest[i]);
                assert forall|j: int| 0 <= j < i + 1 implies !is_compressor(
                    (#[trigger] all[j]).name,
                ) by {
                    if j > 0 {
                        assert(rest[j - 1] == all[j]);
                    }
                }
            } else {
                assert forall|i: int| 0 <= i < all.len() implies !is_compressor(
                    (#[trigger] all[i]).name,
                ) by {
                    if i > 0 {
                        assert(rest[i - 1] == all[i]);
                    }
                }
            }
        }
    }
}

/// One interface more adds its octets in both directions where it is up, stands
/// for hardware, and is Ethernet or wireless; it adds nothing otherwise.
pub proof fn an_interface_adds_its_octets(
    rows: &[IfRow],
    more: &[IfRow],
    row: IfRow,
    r: (u64, u64),
    m: (u64, u64),
)
    requires
        call_ensures(network_octets, (rows,), r),
        call_ensures(network_octets, (more,), m),
        more@ == rows@.push(row),
    ensures
        rows@.len() == 0 ==> r == (0u64, 0u64),
        row.up && row.hardware && (row.kind == 6 || row.kind == 71) ==> m.0 == (if r.0
            + row.in_octets > u64::MAX {
            u64::MAX as int
        } else {
            r.0 + row.in_octets
        }) && m.1 == (if r.1 + row.out_octets > u64::MAX {
            u64::MAX as int
        } else {
            r.1 + row.out_octets
        }),
        !(row.up && row.hardware && (row.kind == 6 || row.kind == 71)) ==> m == r,
{
    assert(more@.drop_last() =~= rows@);
}

/// The shown drives are the fixed and removable ones whose space is known, with
/// that space, in order.
pub proof fn drives_with_space_are_shown(drives: &[DriveFacts], r: Vec<VolumeSample>) -> (at: Seq<
    int,
>)
    requires
        call_ensures(volume_samples, (drives,), r),
    ensures
        at.len() == r@.len(),
        forall|a: int, b: int| 0 <= a < b < at.len() ==> #[trigger] at[a] < #[trigger] at[b],
        forall|k: int|
            #![trigger at[k]]
            0 <= k < at.len() ==> {
                let d = drives@[at[k]];
                &&& 0 <= at[k] < drives@.len()
                &&& r@[k].root@ == d.root@
                &&& r@[k].label@ == registry::value_text(d.label@)
                &&& d.space matches Some((total, free)) && r@[k].total == total && r@[k].free
                    == free
            },
        forall|i: int|
            0 <= i < drives@.len() ==> (at.contains(i) <==> ((#[trigger] drives@[i]).drive_type == 3
                || drives@[i].drive_type == 2) && drives@[i].space is Some),
{
    let at = crate::seqs::filter_places(drives@, drive_shown());
    assert forall|k: int| #![trigger at[k]] 0 <= k < at.len() implies r@[k].root@
        == drives@[at[k]].root@ && r@[k].label@ == registry::value_text(drives@[at[k]].label@)
        && Some((r@[k].total, r@[k].free)) == drives@[at[k]].space by {
        assert(drives@.filter(drive_shown())[k] == drives@[at[k]]);
        assert(r@[k].root@ == drives@.filter(drive_shown())[k].root@);
    }
    at
}

/// A file is named by its volume and an index whose high half counts 2^32 times
/// as much as its low half; two files share their name only where all three
/// numbers are the same.
pub proof fn two_files_differ_in_their_identity(
    a: (u32, u32, u32),
    b: (u32, u32, u32),
    ra: (u64, u64),
    rb: (u64, u64),
)
    requires
        call_ensures(hardlink_identity, (a.0, a.1, a.2), ra),
        call_ensures(hardlink_identity, (b.0, b.1, b.2), rb),
    ensures
        ra.0 == a.0,
        ra.1 == a.1 * 0x1_0000_0000 + a.2,
        ra == rb <==> a == b,
{
}

/// A name of the processor holds all pieces in order, without white space around
/// them, and is none where nothing is left.
pub proof fn a_brand_joins_its_pieces(pieces: &[String], r: Option<String>)
    requires
        call_ensures(brand_from, (pieces,), r),
    ensures
        pieces@.len() == 0 ==> r is None,
        pieces@.len() == 1 ==> (r is None <==> text::trim(pieces@[0]@).len() == 0),
        pieces@.len() == 1 && r is Some ==> r->0@ == text::trim(pieces@[0]@),
        pieces@.len() == 2 && r is Some ==> r->0@ == text::trim(pieces@[0]@ + pieces@[1]@),
        pieces@.len() == 2 ==> (r is None <==> text::trim(pieces@[0]@ + pieces@[1]@).len() == 0),
{
    let t = crate::scan::strings(pieces@);
    assert(t.len() == pieces@.len());
    reveal_with_fuel(together, 3);
    if pieces@.len() == 0 {
        assert(together(t) =~= Seq::<char>::empty());
        assert(text::trim_left(Seq::<char>::empty()) =~= Seq::<char>::empty());
        assert(text::trim(together(t)).len() == 0);
    }
    if pieces@.len() == 1 {
        assert(t[0] == pieces@[0]@);
        assert(together(t) =~= pieces@[0]@);
    }
    if pieces@.len() == 2 {
        assert(t[0] == pieces@[0]@ && t[1] == pieces@[1]@);
        assert(t.drop_last().last() == t[0]);
        assert(together(t) =~= pieces@[0]@ + pieces@[1]@);
    }
}

/// A snapshot carries its parts, and zero for each part that could not be had.
pub proof fn a_snapshot_carries_its_parts(
    ticks: Option<CpuTicks>,
    perf: Option<PerfFacts>,
    memory: Option<(u64, u64)>,
    net: Option<(u64, u64)>,
    compressed_ws: Option<u64>,
    volumes: Vec<VolumeSample>,
    procs: Vec<(u32, String, u64, u64, u64)>,
    r: RawMonitor,
)
    requires
        call_ensures(monitor_raw, (ticks, perf, memory, net, compressed_ws, volumes, procs), r),
    ensures
        ticks matches Some(t) ==> r.ticks.idle == t.idle && r.ticks.kernel == t.kernel
            && r.ticks.user == t.user,
        ticks is None ==> r.ticks.idle == 0 && r.ticks.kernel == 0 && r.ticks.user == 0,
        memory matches Some((total, available)) ==> r.mem_total == total && r.mem_available
            == available,
        memory is None ==> r.mem_total == 0 && r.mem_available == 0,
        net matches Some((i, o)) ==> r.net_in == i && r.net_out == o,
        net is None ==> r.net_in == 0 && r.net_out == 0,
        perf matches Some(p) ==> r.threads == p.threads && r.processes == p.processes
            && r.commit_total == p.commit_total && r.commit_limit == p.commit_limit
            && r.system_cache == p.system_cache && r.kernel_paged == p.kernel_paged
            && r.kernel_nonpaged == p.kernel_nonpaged,
        perf is None ==> r.threads == 0 && r.processes == 0 && r.commit_total == 0 && r.commit_limit
            == 0 && r.system_cache == 0 && r.kernel_paged == 0 && r.kernel_nonpaged == 0,
        r.compressed_ws == compressed_ws,
        r.procs@ == procs@ && r.volumes@ == volumes@,
{
}

} // verus!
