//! Windows volumes: roots of paths, drive lists, space, the Recycle Bin's
//! policy, and the raw NTFS figures.
use vstd::prelude::*;

use crate::bytes;
use crate::locate;
use crate::platform::{BinPolicy, StorageSnapshot, String16, TurboGeometry};
use crate::sidebar;
use crate::text;

verus! {

/// The drive type of a fixed disk.
pub const DRIVE_FIXED: u32 = 3;

/// The drive type of a removable disk.
pub const DRIVE_REMOVABLE: u32 = 2;

/// A text in UTF-16 with a closing NUL.
pub fn wide(s: &str) -> (r: Vec<u16>)
    ensures
        r@ == text::utf16(s@).push(0),
{
    let mut out = text::units_of(s);
    out.push(0);
    out
}

// ---------------------------------------------------------------------------
// Roots
// ---------------------------------------------------------------------------

fn is_letter(c: char) -> (r: bool)
    ensures
        r == sidebar::is_letter(c),
{
    ('A' <= c && c <= 'Z') || ('a' <= c && c <= 'z')
}

/// The volume root of a verbatim path: `\\?\C:\` of `\\?\C:\foo`.
pub open spec fn verbatim_root(s: Seq<char>) -> Option<Seq<char>> {
    if locate::verbatim().is_prefix_of(s) && s.len() >= 6 && sidebar::is_letter(s[4]) && s[5]
        == ':' {
        Some(s.take(6).push('\\'))
    } else {
        None
    }
}

/// The volume root of a verbatim path.
pub fn root_of(verbatim: &str) -> (r: Option<String>)
    ensures
        crate::scan::text_of(r) == verbatim_root(verbatim@),
{
    let cs = text::chars_of(verbatim);
    if cs.len() < 6 || cs[0] != '\\' || cs[1] != '\\' || cs[2] != '?' || cs[3] != '\\'
        || !is_letter(cs[4]) || cs[5] != ':' {
        assert(verbatim_root(cs@) is None) by {
            if locate::verbatim().is_prefix_of(cs@) {
                let v = locate::verbatim();
                assert(cs@.take(4) == v);
                assert(cs@[0] == v[0] && cs@[1] == v[1] && cs@[2] == v[2] && cs@[3] == v[3]);
            }
        }
        return None;
    }
    assert(cs@.take(4) =~= locate::verbatim());
    let mut head = text::slice_chars(cs.as_slice(), 0, 6);
    assert(head@ =~= cs@.take(6));
    head.push('\\');
    Some(text::string_of(head.as_slice()))
}

/// The start of a path that names its volume by a GUID.
pub open spec fn volume_prefix() -> Seq<char> {
    r"\\?\Volume"@
}

/// The drive root of a display path: `C:\` of `C:\foo\bar`, and a path that
/// names its volume by a GUID with one closing backslash.
pub open spec fn drive_root(s: Seq<char>) -> Option<Seq<char>> {
    if s.len() >= 3 && sidebar::is_letter(s[0]) && s[1] == ':' && s[2] == '\\' {
        Some(s.take(3))
    } else if volume_prefix().is_prefix_of(s) {
        Some(locate::no_tail_slash(s).push('\\'))
    } else {
        None
    }
}

/// The text without trailing backslashes.
fn without_tail(cs: &[char]) -> (r: Vec<char>)
    ensures
        r@ == locate::no_tail_slash(cs@),
{
    let mut to: usize = cs.len();
    assert(cs@.subrange(0, to as int) =~= cs@);
    while to > 0 && cs[to - 1] == '\\'
        invariant
            to <= cs.len(),
            locate::no_tail_slash(cs@) == locate::no_tail_slash(cs@.subrange(0, to as int)),
        decreases to,
    {
        assert(cs@.subrange(0, to as int).drop_last() =~= cs@.subrange(0, to - 1));
        to -= 1;
    }
    text::slice_chars(cs, 0, to)
}

/// The drive root of a display path.
pub fn drive_root_of(path: &str) -> (r: Option<String>)
    ensures
        crate::scan::text_of(r) == drive_root(path@),
{
    let cs = text::chars_of(path);
    if cs.len() >= 3 && is_letter(cs[0]) && cs[1] == ':' && cs[2] == '\\' {
        let head = text::slice_chars(cs.as_slice(), 0, 3);
        assert(head@ =~= cs@.take(3));
        return Some(text::string_of(head.as_slice()));
    }
    let prefix = text::chars_of(r"\\?\Volume");
    if text::begins_with(cs.as_slice(), prefix.as_slice()) {
        let mut head = without_tail(cs.as_slice());
        head.push('\\');
        return Some(text::string_of(head.as_slice()));
    }
    None
}

/// The volume root of a display path, with any ASCII character for the letter:
/// `C:\` of `C:foo`.
pub open spec fn display_root(s: Seq<char>) -> Option<Seq<char>> {
    if s.len() >= 2 && (s[0] as u32) < 128 && s[1] == ':' {
        Some(s.take(2).push('\\'))
    } else {
        None
    }
}

/// The volume root of a display path.
pub fn root_of_display(path: &str) -> (r: Option<String>)
    ensures
        crate::scan::text_of(r) == display_root(path@),
{
    let cs = text::chars_of(path);
    if cs.len() >= 2 && (cs[0] as u32) < 128 && cs[1] == ':' {
        let mut head = text::slice_chars(cs.as_slice(), 0, 2);
        assert(head@ =~= cs@.take(2));
        head.push('\\');
        return Some(text::string_of(head.as_slice()));
    }
    None
}

/// The drive root of a drive root is the root itself.
pub proof fn drive_root_is_settled(s: Seq<char>)
    requires
        drive_root(s) is Some,
    ensures
        drive_root(drive_root(s)->0) == drive_root(s),
{
    let root = drive_root(s)->0;
    if s.len() >= 3 && sidebar::is_letter(s[0]) && s[1] == ':' && s[2] == '\\' {
        assert(root.take(3) =~= root);
    } else {
        reveal_strlit(r"\\?\Volume");
        let p = volume_prefix();
        let kept = locate::no_tail_slash(s);
        assert(p.len() == 10 && p[9] == 'e' && p[0] == '\\' && p[1] == '\\');
        assert(s.take(10) == p);
        assert(s[9] == p[9] && s[0] == p[0]);
        tail_keeps(s, 9);
        assert(root.take(10) =~= p) by {
            assert forall|i: int| 0 <= i < 10 implies root[i] == p[i] by {
                assert(s.take(10)[i] == p[i]);
                assert(root[i] == kept[i]);
                assert(kept[i] == s.take(kept.len() as int)[i]);
            }
        }
        assert(root[0] == '\\');
        assert(root.drop_last() =~= kept);
        tail_is_settled(s);
    }
}

/// Dropping trailing backslashes keeps what stands up to another character.
proof fn tail_keeps(s: Seq<char>, i: int)
    requires
        0 <= i < s.len(),
        s[i] != '\\',
    ensures
        i < locate::no_tail_slash(s).len() <= s.len(),
        locate::no_tail_slash(s) == s.take(locate::no_tail_slash(s).len() as int),
    decreases s.len(),
{
    if s.last() == '\\' {
        tail_keeps(s.drop_last(), i);
        let n = locate::no_tail_slash(s).len() as int;
        assert(s.drop_last().take(n) =~= s.take(n));
    } else {
        assert(s.take(s.len() as int) =~= s);
    }
}

/// What remains has no trailing backslash.
proof fn tail_is_settled(s: Seq<char>)
    ensures
        locate::no_tail_slash(locate::no_tail_slash(s)) == locate::no_tail_slash(s),
    decreases s.len(),
{
    if s.len() > 0 && s.last() == '\\' {
        tail_is_settled(s.drop_last());
    }
}

// ---------------------------------------------------------------------------
// Drive lists
// ---------------------------------------------------------------------------

/// The non-empty pieces between NULs, from `from` on; `start` is where the
/// current piece begins.
pub open spec fn pieces(u: Seq<u16>, start: int, i: int) -> Seq<Seq<u16>>
    decreases u.len() - i,
{
    if i < 0 || i >= u.len() {
        if start < i {
            seq![u.subrange(start, i)]
        } else {
            Seq::empty()
        }
    } else if u[i] == 0 {
        (if start < i {
            seq![u.subrange(start, i)]
        } else {
            Seq::empty()
        }) + pieces(u, i + 1, i + 1)
    } else {
        pieces(u, start, i + 1)
    }
}

/// The names in a NUL-separated list.
pub open spec fn names_in(u: Seq<u16>) -> Seq<Seq<char>> {
    pieces(u, 0, 0).map_values(|p: Seq<u16>| text::lossy(p))
}

fn slice_units(u: &[u16], from: usize, to: usize) -> (r: Vec<u16>)
    requires
        from <= to <= u.len(),
    ensures
        r@ == u@.subrange(from as int, to as int),
{
    let mut out: Vec<u16> = Vec::new();
    let mut i: usize = from;
    while i < to
        invariant
            from <= i <= to <= u.len(),
            out@ == u@.subrange(from as int, i as int),
        decreases to - i,
    {
        out.push(u[i]);
        i += 1;
    }
    out
}

/// Reads a NUL-separated list of drive roots.
pub fn drive_strings(u: &[u16]) -> (r: Vec<String>)
    ensures
        crate::scan::strings(r@) == names_in(u@),
{
    let n = u.len();
    let mut out: Vec<String> = Vec::new();
    let mut start: usize = 0;
    let mut i: usize = 0;
    let ghost all = names_in(u@);
    while i < n
        invariant
            start <= i <= n == u.len(),
            all == crate::scan::strings(out@) + pieces(u@, start as int, i as int).map_values(
                |p: Seq<u16>| text::lossy(p),
            ),
        decreases n - i,
    {
        let ghost f = |p: Seq<u16>| text::lossy(p);
        let ghost rest = pieces(u@, start as int, i as int);
        if u[i] == 0 {
            let ghost before = crate::scan::strings(out@);
            let ghost tail = pieces(u@, i + 1, i + 1);
            if start < i {
                let piece = slice_units(u, start, i);
                let name = text::lossy_string(piece.as_slice());
                out.push(name);
                assert(rest == seq![piece@] + tail);
                assert(rest.map_values(f) =~= seq![text::lossy(piece@)] + tail.map_values(f));
                assert(crate::scan::strings(out@) =~= before.push(text::lossy(piece@)));
                assert(before + rest.map_values(f) =~= before.push(text::lossy(piece@))
                    + tail.map_values(f));
            } else {
                assert(rest =~= tail);
            }
            start = i + 1;
        }
        i += 1;
    }
    if start < n {
        let ghost f = |p: Seq<u16>| text::lossy(p);
        let ghost before = crate::scan::strings(out@);
        let piece = slice_units(u, start, n);
        let name = text::lossy_string(piece.as_slice());
        out.push(name);
        assert(pieces(u@, start as int, n as int) =~= seq![piece@]);
        assert(seq![piece@].map_values(f) =~= seq![text::lossy(piece@)]);
        assert(crate::scan::strings(out@) =~= before.push(text::lossy(piece@)));
        assert(before + seq![text::lossy(piece@)] =~= before.push(text::lossy(piece@)));
    } else {
        assert(pieces(u@, start as int, n as int).map_values(|p: Seq<u16>| text::lossy(p))
            =~= Seq::<Seq<char>>::empty());
        assert(crate::scan::strings(out@) + Seq::<Seq<char>>::empty() =~= crate::scan::strings(
            out@,
        ));
    }
    out
}

/// Whether a drive is a fixed disk.
pub open spec fn is_fixed() -> spec_fn((String, u32)) -> bool {
    |d: (String, u32)| d.1 == DRIVE_FIXED
}

/// The roots of the fixed disks among the drives, each with its type.
pub fn fixed_drive_roots(drives: &[(String, u32)]) -> (r: Vec<String>)
    ensures
        r@ == drives@.filter(is_fixed()).map_values(|d: (String, u32)| d.0),
{
    let mut out: Vec<String> = Vec::new();
    let mut i: usize = 0;
    proof {
        crate::seqs::filter_nothing(is_fixed());
        assert(drives@.take(0) =~= Seq::empty());
    }
    assert(out@ =~= drives@.take(0).filter(is_fixed()).map_values(|d: (String, u32)| d.0));
    while i < drives.len()
        invariant
            i <= drives.len(),
            out@ == drives@.take(i as int).filter(is_fixed()).map_values(|d: (String, u32)| d.0),
        decreases drives.len() - i,
    {
        proof {
            crate::seqs::filter_step(drives@, i as int, is_fixed());
        }
        if drives[i].1 == DRIVE_FIXED {
            out.push(drives[i].0.clone());
        }
        assert(out@ =~= drives@.take(i + 1).filter(is_fixed()).map_values(
            |d: (String, u32)| d.0,
        ));
        i += 1;
    }
    assert(drives@.take(i as int) =~= drives@);
    out
}

/// Whether an item lies on a fixed disk: `drive_type` is the type of its drive
/// root, where the path names one.
pub fn path_on_fixed_drive(drive_type: Option<u32>) -> (r: bool)
    ensures
        r == (drive_type == Some(DRIVE_FIXED)),
{
    match drive_type {
        Some(t) => t == DRIVE_FIXED,
        None => false,
    }
}

/// The folder of Store packages below the program folder.
pub open spec fn windows_apps(programs: Seq<char>) -> Seq<char> {
    if programs.len() > 0 && programs.last() == '\\' {
        programs + "WindowsApps"@
    } else {
        programs.push('\\') + "WindowsApps"@
    }
}

/// Composes the folder of Store packages.
pub fn windows_apps_under(programs: &str) -> (r: String)
    ensures
        r@ == windows_apps(programs@),
{
    let cs = text::chars_of(programs);
    let mut out: String = programs.to_owned();
    if cs.len() == 0 || cs[cs.len() - 1] != '\\' {
        out.push('\\');
    }
    out.append("WindowsApps");
    out
}

// ---------------------------------------------------------------------------
// Space
// ---------------------------------------------------------------------------

/// The space on a volume from what the system reports; `None` for a volume of
/// no size. `free` is what the caller may use.
pub fn disk_storage(label: Vec<u16>, total: u64, free: u64) -> (r: Option<StorageSnapshot>)
    ensures
        r is None <==> total == 0,
        r matches Some(s) ==> s.label.0 == label && s.total == total && s.free == free && s.used
            == (if free <= total {
            total - free
        } else {
            0
        }),
{
    if total == 0 {
        return None;
    }
    let used: u64 = if free <= total {
        total - free
    } else {
        0
    };
    Some(StorageSnapshot { label: String16(label), total, used, free })
}

/// Bytes of a cluster from sectors per cluster and bytes per sector; 4096
/// where the volume does not say.
pub fn cluster_size(figures: Option<(u32, u32)>) -> (r: u32)
    ensures
        r == (match figures {
            Some((sectors, bytes)) => if sectors == 0 || bytes == 0 {
                4096
            } else if sectors * bytes > u32::MAX {
                u32::MAX as int
            } else {
                sectors * bytes
            },
            None => 4096,
        }),
{
    match figures {
        Some((sectors, bytes)) => {
            if sectors > 0 && bytes > 0 {
                proof {
                    let a = sectors as int;
                    let b = bytes as int;
                    assert(0 <= a * b <= 0xffff_ffff * 0xffff_ffff) by (nonlinear_arith)
                        requires
                            0 <= a <= 0xffff_ffff,
                            0 <= b <= 0xffff_ffff,
                    ;
                }
                let product: u64 = sectors as u64 * bytes as u64;
                if product > 0xffff_ffff {
                    u32::MAX
                } else {
                    product as u32
                }
            } else {
                4096
            }
        },
        None => 4096,
    }
}

// ---------------------------------------------------------------------------
// The Recycle Bin
// ---------------------------------------------------------------------------

/// A hexadecimal digit or a hyphen.
pub open spec fn is_guid_char(c: char) -> bool {
    ('0' <= c && c <= '9') || ('a' <= c && c <= 'f') || ('A' <= c && c <= 'F') || c == '-'
}

/// A GUID in braces: 38 characters.
pub open spec fn is_guid(s: Seq<char>) -> bool {
    s.len() == 38 && s[0] == '{' && s[37] == '}' && forall|i: int|
        0 < i < 37 ==> is_guid_char(#[trigger] s[i])
}

/// The GUID in a volume name such as `\\?\Volume{...}\`: what stands from the
/// first brace on.
pub open spec fn guid_in(s: Seq<char>) -> Option<Seq<char>> {
    let p = text::first_index(s, '{') as int;
    if p + 38 <= s.len() && is_guid(s.subrange(p, p + 38)) {
        Some(s.subrange(p, p + 38))
    } else {
        None
    }
}

/// Where the bin's settings of volumes stand.
pub open spec fn bin_keys() -> Seq<char> {
    r"Software\Microsoft\Windows\CurrentVersion\Explorer\BitBucket\Volume\"@
}

/// The key with the bin's settings for a volume, from the volume's name;
/// `None` where the name holds no GUID.
pub fn bin_key_for(volume: &[u16]) -> (r: Option<String>)
    ensures
        crate::scan::text_of(r) == (match guid_in(text::lossy(volume@)) {
            Some(g) => Some(bin_keys() + g),
            None => None,
        }),
{
    let cs = text::lossy_chars(volume);
    let mut p: usize = 0;
    assert(cs@.skip(0) =~= cs@);
    while p < cs.len() && cs[p] != '{'
        invariant
            p <= cs.len(),
            text::first_index(cs@, '{') == p + text::first_index(cs@.skip(p as int), '{'),
        decreases cs.len() - p,
    {
        assert(cs@.skip(p as int).drop_first() =~= cs@.skip(p + 1));
        p += 1;
    }
    assert(text::first_index(cs@, '{') == p);
    if cs.len() - p < 38 {
        return None;
    }
    let g = text::slice_chars(cs.as_slice(), p, p + 38);
    if g[0] != '{' || g[37] != '}' {
        return None;
    }
    let mut i: usize = 1;
    while i < 37
        invariant
            1 <= i <= 37,
            g.len() == 38,
            g@[0] == '{',
            g@[37] == '}',
            g@ == cs@.subrange(p as int, p + 38),
            p + 38 <= cs@.len(),
            cs@ == text::lossy(volume@),
            text::first_index(cs@, '{') == p,
            forall|k: int| 0 < k < i ==> is_guid_char(#[trigger] g@[k]),
        decreases 37 - i,
    {
        let c: char = g[i];
        if !(('0' <= c && c <= '9') || ('a' <= c && c <= 'f') || ('A' <= c && c <= 'F') || c
            == '-') {
            assert(!is_guid_char(g@[i as int]));
            return None;
        }
        i += 1;
    }
    assert(is_guid(g@));
    let guid = text::string_of(g.as_slice());
    Some(
        text::join2(
            r"Software\Microsoft\Windows\CurrentVersion\Explorer\BitBucket\Volume\",
            guid.as_str(),
        ),
    )
}

/// A volume's policy from the two settings; without them the bin takes
/// everything.
pub fn bin_policy_for(nuke_on_delete: Option<u32>, max_capacity: Option<u32>) -> (r: BinPolicy)
    ensures
        r.nuke_on_delete == (nuke_on_delete == Some(1u32)),
        r.max_capacity_mb == (match max_capacity {
            Some(v) => Some(v as u64),
            None => None,
        }),
{
    BinPolicy {
        nuke_on_delete: match nuke_on_delete {
            Some(v) => v == 1,
            None => false,
        },
        max_capacity_mb: match max_capacity {
            Some(v) => Some(v as u64),
            None => None,
        },
    }
}

// ---------------------------------------------------------------------------
// Launching through the shell
// ---------------------------------------------------------------------------

/// What a launch through the shell gave: a value above 32 is success, anything
/// else an error code.
pub open spec fn shell_result(code: usize, head: Seq<char>) -> Result<(), Seq<char>> {
    if code > 32 {
        Ok(())
    } else {
        Err(head + text::decimal(code as nat) + ")."@)
    }
}

/// The result with its text as characters.
pub open spec fn result_text(r: Result<(), String>) -> Result<(), Seq<char>> {
    match r {
        Ok(()) => Ok(()),
        Err(t) => Err(t@),
    }
}

fn shell_outcome(code: usize, head: &str) -> (r: Result<(), String>)
    ensures
        result_text(r) == shell_result(code, head@),
{
    if code > 32 {
        return Ok(());
    }
    let n = text::decimal_string(code as u64);
    Err(text::join3(head, n.as_str(), ")."))
}

/// The outcome of opening an item with its default handler.
pub fn open_outcome(code: usize) -> (r: Result<(), String>)
    ensures
        result_text(r) == shell_result(code, "Windows could not open this item (shell error "@),
{
    shell_outcome(code, "Windows could not open this item (shell error ")
}

/// The arguments of a relaunch that scans a target.
pub fn relaunch_args(scan_target: &str, extra: &str) -> (r: String)
    ensures
        r@ == "--scan \""@ + scan_target@ + "\""@ + (if extra@.len() == 0 {
            Seq::empty()
        } else {
            " "@ + extra@
        }),
{
    let mut out = text::join3("--scan \"", scan_target, "\"");
    let cs = text::chars_of(extra);
    let ghost head = out@;
    if cs.len() > 0 {
        out.append(" ");
        out.append(extra);
        assert(out@ =~= head + (" "@ + extra@));
    } else {
        assert(out@ =~= head + Seq::<char>::empty());
    }
    out
}

/// The outcome of relaunching with elevated rights.
pub fn relaunch_elevated_with(code: usize) -> (r: Result<(), String>)
    ensures
        result_text(r) == shell_result(code, "Elevation was declined or failed (shell error "@),
{
    shell_outcome(code, "Elevation was declined or failed (shell error ")
}

/// Whether the backup privilege is held after it was asked for: the call
/// succeeded and did not report that it was not assigned.
pub fn enable_backup_privilege(adjusted: bool, last_error: u32) -> (r: bool)
    ensures
        r == (adjusted && last_error != 1300),
{
    adjusted && last_error != 1300
}

// ---------------------------------------------------------------------------
// Raw NTFS volumes
// ---------------------------------------------------------------------------

/// The device of a drive: `\\.\C:` for `C:\`.
pub fn volume_device(drive_root: &str) -> (r: String)
    ensures
        r@ == r"\\.\"@ + locate::no_tail_slash(drive_root@),
{
    let cs = text::chars_of(drive_root);
    let head = without_tail(cs.as_slice());
    let name = text::string_of(head.as_slice());
    text::join2(r"\\.\", name.as_str())
}

/// A failed call or too few bytes.
pub open spec fn no_ntfs() -> Seq<char> {
    "This drive does not report NTFS geometry (turbo needs NTFS)."@
}

/// A geometry with no sectors or no records.
pub open spec fn bad_ntfs() -> Seq<char> {
    "The NTFS geometry is unusable (zero record size)."@
}

/// The figures in a volume data block.
pub open spec fn geometry_in(b: Seq<u8>) -> TurboGeometry {
    let cluster = bytes::le(b, 44, 4) as u32;
    let valid = bytes::signed(bytes::le(b, 32, 8) as u64);
    TurboGeometry {
        bytes_per_sector: bytes::le(b, 40, 4) as u32,
        bytes_per_cluster: if cluster < 1 {
            1
        } else {
            cluster
        },
        bytes_per_record: bytes::le(b, 48, 4) as u32,
        mft_valid_data_length: if valid < 0 {
            0
        } else {
            valid as u64
        },
    }
}

/// Reads the figures of an NTFS volume from the block of volume data; `returned`
/// is how much of it was filled, `None` where the call failed.
pub fn turbo_geometry(block: &[u8], returned: Option<u32>) -> (r: Result<TurboGeometry, String>)
    requires
        block.len() >= 52,
    ensures
        ({
            let g = geometry_in(block@);
            match r {
                Ok(v) => v == g && returned is Some && returned->0 >= 52 && g.bytes_per_sector != 0
                    && g.bytes_per_record != 0,
                Err(t) => if returned is None || returned->0 < 52 {
                    t@ == no_ntfs()
                } else {
                    t@ == bad_ntfs() && (g.bytes_per_sector == 0 || g.bytes_per_record == 0)
                },
            }
        }),
{
    match returned {
        None => {
            return Err("This drive does not report NTFS geometry (turbo needs NTFS).".to_owned());
        },
        Some(n) => {
            if n < 52 {
                return Err(
                    "This drive does not report NTFS geometry (turbo needs NTFS).".to_owned(),
                );
            }
        },
    }
    let bytes_per_sector = bytes::u32_at(block, 40);
    let cluster = bytes::u32_at(block, 44);
    let bytes_per_record = bytes::u32_at(block, 48);
    let valid = bytes::to_signed(bytes::u64_at(block, 32));
    if bytes_per_sector == 0 || bytes_per_record == 0 {
        return Err("The NTFS geometry is unusable (zero record size).".to_owned());
    }
    Ok(
        TurboGeometry {
            bytes_per_sector,
            bytes_per_cluster: if cluster < 1 {
                1
            } else {
                cluster
            },
            bytes_per_record,
            mft_valid_data_length: if valid < 0 {
                0
            } else {
                valid as u64
            },
        },
    )
}

/// Whether a record carries the signature of a file record.
pub fn is_file_record(record: &[u8]) -> (r: bool)
    requires
        record.len() >= 4,
    ensures
        r == (record@.take(4) == seq![0x46u8, 0x49u8, 0x4Cu8, 0x45u8]),
{
    let ghost sign = seq![0x46u8, 0x49u8, 0x4Cu8, 0x45u8];
    let r = record[0] == 0x46 && record[1] == 0x49 && record[2] == 0x4C && record[3] == 0x45;
    assert(r == (record@.take(4) == sign)) by {
        if r {
            assert(record@.take(4) =~= sign);
        } else if record@.take(4) == sign {
            assert(record@.take(4)[0] == sign[0] && record@.take(4)[1] == sign[1]
                && record@.take(4)[2] == sign[2] && record@.take(4)[3] == sign[3]);
        }
    }
    r
}

/// A stretch of clusters of the table; without a place it is sparse.
#[derive(Clone, Copy, Debug, PartialEq, Eq, Structural)]
pub struct DataRun {
    pub length: u64,
    pub lcn: Option<i64>,
}

/// What to do about the next run.
#[derive(Clone, Copy, Debug, PartialEq, Eq, Structural)]
pub enum RunStep {
    /// Nothing is stored for it.
    Skip,
    /// The valid part has been read.
    Stop,
    /// Read `take` bytes from `at` on.
    Read { at: u64, take: u64 },
}

/// The next step of staging the table, after `staged` bytes have been read.
pub open spec fn run_step(run: DataRun, geo: TurboGeometry, staged: u64) -> Result<
    RunStep,
    Seq<char>,
> {
    let cluster = geo.bytes_per_cluster as int;
    match run.lcn {
        None => Ok(RunStep::Skip),
        Some(lcn) => {
            let left = if staged < geo.mft_valid_data_length {
                geo.mft_valid_data_length - staged
            } else {
                0
            };
            let bytes = run.length * cluster;
            if lcn < 0 {
                Err("The $MFT cluster map is corrupt."@)
            } else if bytes > u64::MAX {
                Err("The $MFT size overflows."@)
            } else if lcn * cluster > u64::MAX {
                Err("The $MFT offset overflows."@)
            } else if bytes == 0 || left == 0 {
                Ok(RunStep::Stop)
            } else {
                Ok(
                    RunStep::Read {
                        at: (lcn * cluster) as u64,
                        take: if bytes < left {
                            bytes as u64
                        } else {
                            left as u64
                        },
                    },
                )
            }
        },
    }
}

/// Decides how to stage the next run of the table.
pub fn next_run(run: DataRun, geo: &TurboGeometry, staged: u64) -> (r: Result<RunStep, String>)
    ensures
        (match r {
            Ok(s) => Ok(s),
            Err(t) => Err(t@),
        }) == run_step(run, *geo, staged),
{
    let lcn: u64 = match run.lcn {
        None => {
            return Ok(RunStep::Skip);
        },
        Some(v) => {
            if v < 0 {
                return Err("The $MFT cluster map is corrupt.".to_owned());
            }
            v as u64
        },
    };
    let cluster = geo.bytes_per_cluster as u64;
    let bytes: u64 = match run.length.checked_mul(cluster) {
        Some(v) => v,
        None => {
            return Err("The $MFT size overflows.".to_owned());
        },
    };
    let at: u64 = match lcn.checked_mul(cluster) {
        Some(v) => v,
        None => {
            return Err("The $MFT offset overflows.".to_owned());
        },
    };
    assert(run.length * cluster >= 0 && lcn * cluster >= 0) by (nonlinear_arith);
    let left: u64 = if staged < geo.mft_valid_data_length {
        geo.mft_valid_data_length - staged
    } else {
        0
    };
    if bytes == 0 || left == 0 {
        return Ok(RunStep::Stop);
    }
    Ok(
        RunStep::Read {
            at,
            take: if bytes < left {
                bytes
            } else {
                left
            },
        },
    )
}

/// A read never goes past the valid part of the table.
pub proof fn reads_stay_in_the_valid_part(run: DataRun, geo: TurboGeometry, staged: u64)
    ensures
        run_step(run, geo, staged) matches Ok(RunStep::Read { at, take }) ==> take > 0 && staged
            + take <= geo.mft_valid_data_length,
{
}

// ---------------------------------------------------------------------------
// Laws
// ---------------------------------------------------------------------------

/// A verbatim path has a root where a letter and a colon follow its prefix: the
/// root is the path up to the colon and one backslash.
pub proof fn a_verbatim_root_ends_behind_the_drive(s: &str, r: Option<String>)
    requires
        call_ensures(root_of, (s,), r),
    ensures
        r is Some <==> s@.len() >= 6 && s@[0] == '\\' && s@[1] == '\\' && s@[2] == '?' && s@[3]
            == '\\' && (('A' <= s@[4] && s@[4] <= 'Z') || ('a' <= s@[4] && s@[4] <= 'z')) && s@[5]
            == ':',
        r matches Some(t) ==> t@.len() == 7 && t@[6] == '\\' && forall|i: int|
            0 <= i < 6 ==> #[trigger] t@[i] == s@[i],
{
    let v = locate::verbatim();
    assert(v.len() == 4);
    if v.is_prefix_of(s@) {
        assert(s@.take(4) =~= v);
        assert(s@[0] == v[0] && s@[1] == v[1] && s@[2] == v[2] && s@[3] == v[3]);
    }
    if s@.len() >= 6 && s@[0] == '\\' && s@[1] == '\\' && s@[2] == '?' && s@[3] == '\\' {
        assert(v =~= s@.take(4));
        assert(v.is_prefix_of(s@));
    }
}

/// Dropping trailing backslashes leaves a start of the text that ends in no
/// backslash, and nothing but backslashes is dropped.
pub proof fn only_trailing_backslashes_go(s: Seq<char>)
    ensures
        locate::no_tail_slash(s).len() <= s.len(),
        locate::no_tail_slash(s) == s.take(locate::no_tail_slash(s).len() as int),
        forall|i: int| locate::no_tail_slash(s).len() <= i < s.len() ==> #[trigger] s[i] == '\\',
        locate::no_tail_slash(s).len() > 0 ==> locate::no_tail_slash(s).last() != '\\',
    decreases s.len(),
{
    if s.len() > 0 && s.last() == '\\' {
        let less = s.drop_last();
        only_trailing_backslashes_go(less);
        let n = locate::no_tail_slash(s).len() as int;
        assert(less.take(n) =~= s.take(n));
        assert forall|i: int| n <= i < s.len() implies #[trigger] s[i] == '\\' by {
            if i < s.len() - 1 {
                assert(less[i] == s[i]);
            }
        }
    } else {
        assert(s.take(s.len() as int) =~= s);
    }
}

/// A drive root is the first three characters of a path with a letter, a colon
/// and a backslash; a path that names its volume by a GUID is its own root, with
/// one closing backslash.
pub proof fn a_drive_root_ends_behind_the_drive(s: &str, r: Option<String>)
    requires
        call_ensures(drive_root_of, (s,), r),
    ensures
        ({
            let lettered = s@.len() >= 3 && (('A' <= s@[0] && s@[0] <= 'Z') || ('a' <= s@[0]
                && s@[0] <= 'z')) && s@[1] == ':' && s@[2] == '\\';
            let named = r"\\?\Volume"@.is_prefix_of(s@);
            &&& r is Some <==> lettered || named
            &&& r matches Some(t) ==> lettered ==> t@ == s@.take(3)
            &&& r matches Some(t) ==> !lettered ==> {
                let n = t@.len() - 1;
                &&& 0 <= n <= s@.len()
                &&& t@ == s@.take(n).push('\\')
                &&& n > 0 ==> s@[n - 1] != '\\'
                &&& forall|i: int| n <= i < s@.len() ==> #[trigger] s@[i] == '\\'
            }
        }),
{
    only_trailing_backslashes_go(s@);
}

/// A display path has a root where an ASCII character and a colon begin it.
pub proof fn a_display_root_ends_behind_the_colon(s: &str, r: Option<String>)
    requires
        call_ensures(root_of_display, (s,), r),
    ensures
        r is Some <==> s@.len() >= 2 && (s@[0] as u32) < 128 && s@[1] == ':',
        r matches Some(t) ==> t@ =~= seq![s@[0], ':', '\\'],
{
}

/// Every piece of a list between NULs that holds anything is one name.
pub proof fn every_piece_is_a_name(u: &[u16], r: Vec<String>) -> (cuts: Seq<(int, int)>)
    requires
        call_ensures(drive_strings, (u,), r),
    ensures
        cuts.len() == r@.len(),
        forall|k: int|
            #![trigger cuts[k]]
            0 <= k < cuts.len() ==> {
                let (a, b) = cuts[k];
                &&& 0 <= a < b <= u@.len()
                &&& r@[k]@ == text::lossy(u@.subrange(a, b))
                &&& forall|i: int| a <= i < b ==> #[trigger] u@[i] != 0
                &&& a == 0 || u@[a - 1] == 0
                &&& b == u@.len() || u@[b] == 0
            },
        forall|j: int, k: int|
            0 <= j < k < cuts.len() ==> (#[trigger] cuts[j]).1 < (#[trigger] cuts[k]).0,
        forall|i: int|
            0 <= i < u@.len() && #[trigger] u@[i] != 0 ==> exists|k: int|
                0 <= k < cuts.len() && (#[trigger] cuts[k]).0 <= i < cuts[k].1,
{
    let cuts = piece_cuts(u@, 0, 0);
    let texts = crate::scan::strings(r@);
    assert(texts == names_in(u@));
    assert(texts.len() == r@.len());
    assert(names_in(u@).len() == pieces(u@, 0, 0).len());
    assert forall|k: int| #![trigger cuts[k]] 0 <= k < cuts.len() implies r@[k]@ == text::lossy(
        u@.subrange(cuts[k].0, cuts[k].1),
    ) by {
        assert(texts[k] == r@[k]@);
        assert(names_in(u@)[k] == text::lossy(pieces(u@, 0, 0)[k]));
    }
    cuts
}

/// Where the pieces of a list begin and end.
proof fn piece_cuts(u: Seq<u16>, start: int, i: int) -> (cuts: Seq<(int, int)>)
    requires
        0 <= start <= i <= u.len(),
        start == 0 || u[start - 1] == 0,
        forall|j: int| start <= j < i ==> #[trigger] u[j] != 0,
    ensures
        cuts.len() == pieces(u, start, i).len(),
        forall|k: int|
            #![trigger cuts[k]]
            0 <= k < cuts.len() ==> {
                let (a, b) = cuts[k];
                &&& start <= a < b <= u.len()
                &&& pieces(u, start, i)[k] == u.subrange(a, b)
                &&& forall|i: int| a <= i < b ==> #[trigger] u[i] != 0
                &&& a == 0 || u[a - 1] == 0
                &&& b == u.len() || u[b] == 0
            },
        forall|j: int, k: int|
            0 <= j < k < cuts.len() ==> (#[trigger] cuts[j]).1 < (#[trigger] cuts[k]).0,
        forall|j: int|
            start <= j < u.len() && #[trigger] u[j] != 0 ==> exists|k: int|
                0 <= k < cuts.len() && (#[trigger] cuts[k]).0 <= j < cuts[k].1,
    decreases u.len() - i,
{
    if i >= u.len() {
        if start < i {
            let cuts = seq![(start, i)];
            assert(cuts[0].0 <= start);
            assert forall|j: int| start <= j < u.len() && #[trigger] u[j] != 0 implies exists|k: int|
                0 <= k < cuts.len() && (#[trigger] cuts[k]).0 <= j < cuts[k].1 by {
                assert(cuts[0] == (start, i));
            }
            cuts
        } else {
            Seq::empty()
        }
    } else if u[i] == 0 {
        let rest = piece_cuts(u, i + 1, i + 1);
        if start < i {
            let cuts = seq![(start, i)] + rest;
            assert forall|j: int| start <= j < u.len() && #[trigger] u[j] != 0 implies exists|k: int|
                0 <= k < cuts.len() && (#[trigger] cuts[k]).0 <= j < cuts[k].1 by {
                if j < i {
                    assert(cuts[0] == (start, i));
                } else {
                    let k = choose|k: int|
                        0 <= k < rest.len() && (#[trigger] rest[k]).0 <= j < rest[k].1;
                    assert(cuts[k + 1] == rest[k]);
                }
            }
            cuts
        } else {
            assert(Seq::<Seq<u16>>::empty() + pieces(u, i + 1, i + 1) =~= pieces(
                u,
                i + 1,
                i + 1,
            ));
            rest
        }
    } else {
        piece_cuts(u, start, i + 1)
    }
}

/// The fixed disks are the drives of type three, in order.
pub proof fn fixed_drives_are_those_of_type_three(
    drives: &[(String, u32)],
    r: Vec<String>,
) -> (at: Seq<int>)
    requires
        call_ensures(fixed_drive_roots, (drives,), r),
    ensures
        at.len() == r@.len(),
        forall|a: int, b: int| 0 <= a < b < at.len() ==> #[trigger] at[a] < #[trigger] at[b],
        forall|k: int|
            #![trigger at[k]]
            0 <= k < at.len() ==> 0 <= at[k] < drives@.len() && r@[k]@ == drives@[at[k]].0@,
        forall|i: int|
            0 <= i < drives@.len() ==> (at.contains(i) <==> (#[trigger] drives@[i]).1 == 3),
{
    crate::seqs::filter_places(drives@, is_fixed())
}

/// An item lies on a fixed disk where its drive is known and of type three.
pub proof fn only_a_known_fixed_drive_counts(drive_type: Option<u32>, r: bool)
    requires
        call_ensures(path_on_fixed_drive, (drive_type,), r),
    ensures
        r <==> (drive_type matches Some(t) && t == 3),
{
}

/// Two program folders that differ in a closing backslash alone have the same
/// folder of Store packages, and its last segment is `WindowsApps`.
pub proof fn store_packages_lie_below_the_programs(a: &str, ra: String, b: &str, rb: String)
    requires
        call_ensures(windows_apps_under, (a,), ra),
        call_ensures(windows_apps_under, (b,), rb),
        a@.len() == 0 || a@.last() != '\\',
        b@ == a@.push('\\'),
    ensures
        ra@ == rb@,
        ra@ == a@ + seq!['\\'] + "WindowsApps"@,
{
    assert(a@.push('\\') =~= a@ + seq!['\\']);
}

/// Used and free space make up the whole, and a volume of no size has none.
pub proof fn used_and_free_make_the_total(
    label: Vec<u16>,
    total: u64,
    free: u64,
    r: Option<StorageSnapshot>,
)
    requires
        call_ensures(disk_storage, (label, total, free), r),
    ensures
        r is None <==> total == 0,
        r matches Some(s) ==> s.label.0@ == label@ && s.total == total && s.free == free,
        r matches Some(s) ==> free <= total ==> s.used + s.free == s.total,
        r matches Some(s) ==> free > total ==> s.used == 0,
{
}

/// A cluster holds its sectors; where a figure is missing it is 4096 bytes.
pub proof fn a_cluster_holds_its_sectors(figures: Option<(u32, u32)>, r: u32)
    requires
        call_ensures(cluster_size, (figures,), r),
    ensures
        r > 0,
        figures matches Some((sectors, bytes)) ==> sectors > 0 && bytes > 0 && sectors * bytes
            <= 0xffff_ffff ==> r == sectors * bytes,
        figures matches Some((sectors, bytes)) ==> sectors > 0 && bytes > 0 && sectors * bytes
            > 0xffff_ffff ==> r == 0xffff_ffff,
        figures matches Some((sectors, bytes)) ==> sectors == 0 || bytes == 0 ==> r == 4096,
        figures is None ==> r == 4096,
{
    if figures is Some {
        let (sectors, bytes) = figures->0;
        assert(sectors > 0 && bytes > 0 ==> sectors * bytes > 0) by (nonlinear_arith);
    }
}

/// The key of a volume's settings ends in the GUID that begins at the first
/// brace of its name; without one there is no key.
pub proof fn settings_stand_under_the_guid(volume: &[u16], r: Option<String>, p: int)
    requires
        call_ensures(bin_key_for, (volume,), r),
        0 <= p < text::lossy(volume@).len(),
        text::lossy(volume@)[p] == '{',
        forall|i: int| 0 <= i < p ==> text::lossy(volume@)[i] != '{',
    ensures
        ({
            let s = text::lossy(volume@);
            &&& r is Some <==> p + 38 <= s.len() && s[p + 37] == '}' && forall|i: int|
                #![trigger s[i]]
                p < i < p + 37 ==> ('0' <= s[i] && s[i] <= '9') || ('a' <= s[i] && s[i] <= 'f') || (
                'A' <= s[i] && s[i] <= 'F') || s[i] == '-'
            &&& r matches Some(t) ==> t@
                == r"Software\Microsoft\Windows\CurrentVersion\Explorer\BitBucket\Volume\"@
                + s.subrange(p, p + 38)
        }),
{
    let s = text::lossy(volume@);
    text::first_index_bound(s, '{');
    let q = text::first_index(s, '{') as int;
    if q < p {
        assert(s[q] == '{');
        assert(false);
    }
    if q > p {
        assert(s[p] != '{');
        assert(false);
    }
    if p + 38 <= s.len() {
        let g = s.subrange(p, p + 38);
        assert(g[0] == s[p]);
        assert(g[37] == s[p + 37]);
        if is_guid(g) {
            assert forall|i: int| #![trigger s[i]] p < i < p + 37 implies is_guid_char(s[i]) by {
                assert(g[i - p] == s[i]);
            }
        }
        if s[p + 37] == '}' && forall|i: int|
            #![trigger s[i]]
            p < i < p + 37 ==> ('0' <= s[i] && s[i] <= '9') || ('a' <= s[i] && s[i] <= 'f') || ('A'
                <= s[i] && s[i] <= 'F') || s[i] == '-' {
            assert forall|i: int| 0 < i < 37 implies is_guid_char(#[trigger] g[i]) by {
                assert(g[i] == s[p + i]);
            }
            assert(is_guid(g));
        }
    }
}

/// A volume without a brace in its name has no key.
pub proof fn no_brace_no_settings(volume: &[u16], r: Option<String>)
    requires
        call_ensures(bin_key_for, (volume,), r),
        !text::lossy(volume@).contains('{'),
    ensures
        r is None,
{
    let s = text::lossy(volume@);
    text::first_index_bound(s, '{');
    if text::first_index(s, '{') < s.len() {
        assert(s[text::first_index(s, '{') as int] == '{');
    }
}

/// A bin deletes at once where its setting is one, and its limit is the one that
/// is set.
pub proof fn a_bin_follows_its_settings(nuke: Option<u32>, limit: Option<u32>, r: BinPolicy)
    requires
        call_ensures(bin_policy_for, (nuke, limit), r),
    ensures
        r.nuke_on_delete <==> (nuke matches Some(v) && v == 1),
        r.max_capacity_mb is Some <==> limit is Some,
        limit matches Some(v) ==> r.max_capacity_mb matches Some(m) && m == v,
{
}

/// A shell call succeeded where its code is above 32; otherwise the text says
/// what failed and the code.
pub proof fn a_shell_code_above_32_is_success(
    code: usize,
    opened: Result<(), String>,
    relaunched: Result<(), String>,
)
    requires
        call_ensures(open_outcome, (code,), opened),
        call_ensures(relaunch_elevated_with, (code,), relaunched),
    ensures
        opened is Ok <==> code > 32,
        relaunched is Ok <==> code > 32,
        opened matches Err(t) ==> t@ == "Windows could not open this item (shell error "@
            + text::decimal(code as nat) + ")."@,
        relaunched matches Err(t) ==> t@ == "Elevation was declined or failed (shell error "@
            + text::decimal(code as nat) + ")."@,
{
}

/// The arguments of a relaunch name the target in quotes, and what is added
/// stands behind a space.
pub proof fn a_relaunch_scans_its_target(target: &str, extra: &str, r: String)
    requires
        call_ensures(relaunch_args, (target, extra), r),
    ensures
        extra@.len() == 0 ==> r@ == "--scan \""@ + target@ + "\""@,
        extra@.len() > 0 ==> r@ == "--scan \""@ + target@ + "\""@ + " "@ + extra@,
{
    let head = "--scan \""@ + target@ + "\""@;
    assert(head + Seq::<char>::empty() =~= head);
    assert(head + (" "@ + extra@) =~= head + " "@ + extra@);
}

/// The privilege is held where the call went through and 1300 was not reported.
pub proof fn the_privilege_is_held_where_assigned(adjusted: bool, last_error: u32, r: bool)
    requires
        call_ensures(enable_backup_privilege, (adjusted, last_error), r),
    ensures
        !adjusted ==> !r,
        last_error == 1300 ==> !r,
        adjusted && last_error != 1300 ==> r,
{
}

/// The device of a drive is the same with and without closing backslashes.
pub proof fn a_device_is_named_by_its_drive(a: &str, ra: String, b: &str, rb: String)
    requires
        call_ensures(volume_device, (a,), ra),
        call_ensures(volume_device, (b,), rb),
        a@.len() == 0 || a@.last() != '\\',
        b@ == a@.push('\\'),
    ensures
        ra@ == r"\\.\"@ + a@,
        rb@ == ra@,
{
    assert(b@.drop_last() =~= a@);
    assert(locate::no_tail_slash(b@) == locate::no_tail_slash(a@));
}

/// The four bytes at a place as a number.
pub open spec fn four(b: Seq<u8>, at: int) -> int {
    b[at] + 256 * b[at + 1] + 65536 * b[at + 2] + 16777216 * b[at + 3]
}

/// The figures of a volume stand at their places in its block: the sector at 40,
/// the cluster at 44, the record at 48, and the valid length at 32, where the
/// sign makes it nothing.
pub proof fn the_geometry_stands_in_the_block(
    block: &[u8],
    returned: Option<u32>,
    r: Result<TurboGeometry, String>,
)
    requires
        block@.len() >= 52,
        call_ensures(turbo_geometry, (block, returned), r),
    ensures
        r is Ok <==> (returned matches Some(n) && n >= 52) && four(block@, 40) != 0 && four(
            block@,
            48,
        ) != 0,
        r matches Ok(g) ==> {
            &&& g.bytes_per_sector == four(block@, 40)
            &&& g.bytes_per_record == four(block@, 48)
            &&& four(block@, 44) > 0 ==> g.bytes_per_cluster == four(block@, 44)
            &&& four(block@, 44) == 0 ==> g.bytes_per_cluster == 1
            &&& block@[39] < 128 ==> g.mft_valid_data_length == four(block@, 32) + 0x1_0000_0000
                * four(block@, 36)
            &&& block@[39] >= 128 ==> g.mft_valid_data_length == 0
        },
        r matches Err(t) ==> t@ == (if returned is None || returned->0 < 52 {
            "This drive does not report NTFS geometry (turbo needs NTFS)."@
        } else {
            "The NTFS geometry is unusable (zero record size)."@
        }),
{
    reveal_with_fuel(bytes::le, 9);
    assert(bytes::le(block@, 40, 4) == four(block@, 40));
    assert(bytes::le(block@, 44, 4) == four(block@, 44));
    assert(bytes::le(block@, 48, 4) == four(block@, 48));
    assert(bytes::le(block@, 32, 8) == four(block@, 32) + 0x1_0000_0000 * four(block@, 36));
}

/// A file record begins with the letters `FILE`.
pub proof fn a_file_record_begins_with_its_sign(record: &[u8], r: bool)
    requires
        record@.len() >= 4,
        call_ensures(is_file_record, (record,), r),
    ensures
        r <==> record@[0] == 0x46 && record@[1] == 0x49 && record@[2] == 0x4C && record@[3] == 0x45,
{
    let sign = seq![0x46u8, 0x49u8, 0x4Cu8, 0x45u8];
    if r {
        assert(record@.take(4)[0] == sign[0] && record@.take(4)[1] == sign[1]
            && record@.take(4)[2] == sign[2] && record@.take(4)[3] == sign[3]);
    } else if record@[0] == 0x46 && record@[1] == 0x49 && record@[2] == 0x4C && record@[3] == 0x45 {
        assert(record@.take(4) =~= sign);
    }
}

/// A run without a place is skipped. One with a place is read at its clusters,
/// as far as the valid part still reaches; it is the last one where it holds
/// nothing or the valid part is read.
pub proof fn a_run_is_read_at_its_clusters(
    run: DataRun,
    geo: &TurboGeometry,
    staged: u64,
    r: Result<RunStep, String>,
)
    requires
        call_ensures(next_run, (run, geo, staged), r),
    ensures
        run.lcn is None ==> r == Ok::<RunStep, String>(RunStep::Skip),
        run.lcn matches Some(lcn) ==> {
            let size = run.length * geo.bytes_per_cluster;
            let place = lcn * geo.bytes_per_cluster;
            &&& r is Err <==> lcn < 0 || size > u64::MAX || place > u64::MAX
            &&& r matches Ok(step) ==> step != RunStep::Skip
            &&& r matches Ok(step) ==> (step is Stop <==> size == 0 || staged
                >= geo.mft_valid_data_length)
            &&& r matches Ok(RunStep::Read { at, take }) ==> {
                &&& at == place
                &&& take > 0
                &&& take <= size
                &&& staged + take <= geo.mft_valid_data_length
                &&& take == size || staged + take == geo.mft_valid_data_length
            }
        },
{
}

} // verus!
