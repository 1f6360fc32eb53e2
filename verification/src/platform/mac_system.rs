//! macOS beyond listing: paths, volumes, installed applications, the Trash, and
//! the raw figures of the machine.
use vstd::prelude::*;

use crate::platform::{
    BinPolicy,
    CpuTicks,
    KnownFolder,
    RawMonitor,
    RawMsixApp,
    RawRegistryApp,
    StorageSnapshot,
    String16,
    VolumeSample,
};
use crate::rollup;
use crate::sidebar;
use crate::text;

verus! {

// ---------------------------------------------------------------------------
// Paths
// ---------------------------------------------------------------------------

/// Backslashes become slashes.
pub open spec fn slashed(s: Seq<char>) -> Seq<char> {
    s.map_values(|c: char| if c == '\\' { '/' } else { c })
}

/// The text holds a NUL.
pub open spec fn has_nul(s: Seq<char>) -> bool {
    s.contains('\0')
}

/// A path without verbatim marks in front.
pub fn plain_path(path: &str) -> (r: String)
    ensures
        r@ == sidebar::no_verbatim_left(path@),
{
    let cs = text::chars_of(path);
    let mut from: usize = 0;
    assert(cs@.skip(0) =~= cs@);
    while cs.len() - from >= 4 && cs[from] == '\\' && cs[from + 1] == '\\' && cs[from + 2] == '?'
        && cs[from + 3] == '\\'
        invariant
            from <= cs.len(),
            sidebar::no_verbatim_left(cs@) == sidebar::no_verbatim_left(cs@.skip(from as int)),
        decreases cs.len() - from,
    {
        assert(cs@.skip(from as int).skip(4) =~= cs@.skip(from + 4));
        from += 4;
    }
    let kept = text::slice_chars(cs.as_slice(), from, cs.len());
    assert(kept@ =~= cs@.skip(from as int));
    text::string_of(kept.as_slice())
}

/// A path as the system takes it: no verbatim marks, slashes; `None` where a
/// NUL stands in it.
pub fn posix_path(path: &str) -> (r: Option<String>)
    ensures
        crate::scan::text_of(r) == (if has_nul(sidebar::no_verbatim_left(path@)) {
            None
        } else {
            Some(slashed(sidebar::no_verbatim_left(path@)))
        }),
{
    let plain = plain_path(path);
    let cs = text::chars_of(plain.as_str());
    let mut out: Vec<char> = Vec::new();
    let mut i: usize = 0;
    while i < cs.len()
        invariant
            i <= cs.len(),
            cs@ == sidebar::no_verbatim_left(path@),
            out@ == slashed(cs@.take(i as int)),
            forall|k: int| 0 <= k < i ==> cs@[k] != '\0',
        decreases cs.len() - i,
    {
        let c: char = cs[i];
        if c == '\0' {
            assert(cs@[i as int] == '\0');
            return None;
        }
        out.push(
            if c == '\\' {
                '/'
            } else {
                c
            },
        );
        assert(out@ =~= slashed(cs@.take(i + 1)));
        i += 1;
    }
    assert(cs@.take(i as int) =~= cs@);
    Some(text::string_of(out.as_slice()))
}

/// The text behind the last slash.
pub open spec fn base_name(s: Seq<char>) -> Seq<char>
    decreases s.len(),
{
    if s.len() == 0 || s.last() == '/' {
        Seq::empty()
    } else {
        base_name(s.drop_last()).push(s.last())
    }
}

/// The text behind the last slash.
fn base_of(s: &str) -> (r: String)
    ensures
        r@ == base_name(s@),
{
    let cs = text::chars_of(s);
    let mut from: usize = cs.len();
    assert(cs@.take(from as int) =~= cs@);
    assert(cs@.skip(from as int) =~= Seq::empty());
    assert(base_name(cs@) =~= base_name(cs@.take(from as int)) + cs@.skip(from as int));
    while from > 0 && cs[from - 1] != '/'
        invariant
            from <= cs.len(),
            base_name(cs@) == base_name(cs@.take(from as int)) + cs@.skip(from as int),
        decreases from,
    {
        let ghost head = cs@.take(from as int);
        assert(head.drop_last() =~= cs@.take(from - 1));
        assert(base_name(head) + cs@.skip(from as int) =~= base_name(cs@.take(from - 1))
            + cs@.skip(from - 1));
        from -= 1;
    }
    assert(base_name(cs@.take(from as int)) =~= Seq::empty());
    let kept = text::slice_chars(cs.as_slice(), from, cs.len());
    assert(kept@ =~= cs@.skip(from as int));
    assert(base_name(cs@) =~= kept@);
    text::string_of(kept.as_slice())
}

/// Where a known folder lies, given the user's home.
pub open spec fn folder_path(folder: KnownFolder, home: Seq<char>) -> Seq<char> {
    match folder {
        KnownFolder::Profile => home,
        KnownFolder::LocalAppData | KnownFolder::RoamingAppData => home
            + "/Library/Application Support"@,
        KnownFolder::ProgramData => "/Library"@,
        KnownFolder::ProgramFiles | KnownFolder::ProgramFilesX86 => "/Applications"@,
        KnownFolder::ProgramFilesWindowsApps => "/System/Applications"@,
        KnownFolder::UserPrograms => home + "/Applications"@,
    }
}

/// Where a known folder lies; `None` without a home.
pub fn known_folder(folder: KnownFolder, home: &Option<String>) -> (r: Option<String>)
    ensures
        crate::scan::text_of(r) == (match crate::scan::text_of(*home) {
            Some(h) => Some(folder_path(folder, h)),
            None => None,
        }),
{
    match home {
        None => None,
        Some(h) => Some(
            match folder {
                KnownFolder::Profile => h.clone(),
                KnownFolder::LocalAppData | KnownFolder::RoamingAppData => text::join2(
                    h.as_str(),
                    "/Library/Application Support",
                ),
                KnownFolder::ProgramData => "/Library".to_owned(),
                KnownFolder::ProgramFiles
                | KnownFolder::ProgramFilesX86 => "/Applications".to_owned(),
                KnownFolder::ProgramFilesWindowsApps => "/System/Applications".to_owned(),
                KnownFolder::UserPrograms => text::join2(h.as_str(), "/Applications"),
            },
        ),
    }
}

/// What opening a path opens: the Trash for the sentinel, the path otherwise.
pub fn open_target(path: &str, home: &Option<String>) -> (r: String)
    ensures
        r@ == (if path@ == "shell:RecycleBinFolder"@ {
            (match crate::scan::text_of(*home) {
                Some(h) => h,
                None => "/"@,
            }) + "/.Trash"@
        } else {
            path@
        }),
{
    if text::same_str(path, "shell:RecycleBinFolder") {
        match home {
            Some(h) => text::join2(h.as_str(), "/.Trash"),
            None => text::join2("/", "/.Trash"),
        }
    } else {
        path.to_owned()
    }
}

// ---------------------------------------------------------------------------
// Volumes
// ---------------------------------------------------------------------------

/// A volume that the user can open: the root, and what is mounted under
/// `/Volumes/` without a hidden part.
pub open spec fn is_browsable(mount: Seq<char>) -> bool {
    mount == "/"@ || ("/Volumes/"@.is_prefix_of(mount) && !text::has_sub(mount, "/."@))
}

/// Whether the user can open a volume.
pub fn is_browsable_volume(mount: &str) -> (r: bool)
    ensures
        r == is_browsable(mount@),
{
    if text::same_str(mount, "/") {
        return true;
    }
    let cs = text::chars_of(mount);
    let head = text::chars_of("/Volumes/");
    let hidden = text::chars_of("/.");
    text::begins_with(cs.as_slice(), head.as_slice()) && !text::contains_chars(
        cs.as_slice(),
        hidden.as_slice(),
    )
}

/// The bytes in front of the first NUL, or all of them where there is
/// none.
pub open spec fn c_bytes(b: Seq<u8>, i: int) -> Seq<u8>
    decreases b.len() - i,
{
    if i < 0 || i >= b.len() {
        b
    } else if b[i] == 0 {
        b.take(i)
    } else {
        c_bytes(b, i + 1)
    }
}

/// Cuts bytes at the first NUL.
fn cut_at_nul(b: &[u8]) -> (r: Vec<u8>)
    ensures
        r@ == c_bytes(b@, 0),
{
    let mut end: usize = b.len();
    assert(b@.take(end as int) =~= b@);
    let mut i: usize = 0;
    while i < b.len()
        invariant_except_break
            end == b.len(),
            b@.take(end as int) == b@,
        invariant
            i <= b.len(),
            c_bytes(b@, 0) == c_bytes(b@, i as int),
        ensures
            end <= b.len(),
            c_bytes(b@, 0) == b@.take(end as int),
        decreases b.len() - i,
    {
        if b[i] == 0 {
            end = i;
            break;
        }
        i += 1;
    }
    let mut out: Vec<u8> = Vec::new();
    let mut k: usize = 0;
    while k < end
        invariant
            k <= end <= b.len(),
            out@ == b@.take(k as int),
        decreases end - k,
    {
        out.push(b[k]);
        assert(out@ =~= b@.take(k + 1));
        k += 1;
    }
    out
}

/// One mounted volume: what is mounted, where, and its label.
#[derive(Clone, Debug)]
pub struct MountedVolume {
    pub from: String,
    pub mount: String,
    pub label: String,
}

/// The text in a fixed field.
pub open spec fn field_text(b: Seq<u8>) -> Seq<char> {
    text::utf8_lossy(c_bytes(b, 0))
}

/// Reads one entry of the mount table: both fields up to their NUL, and the
/// last part of what is mounted as the label.
pub fn mounted_volume(from_name: &[u8], on_name: &[u8]) -> (r: MountedVolume)
    ensures
        r.from@ == field_text(from_name@),
        r.mount@ == field_text(on_name@),
        r.label@ == base_name(field_text(from_name@)),
{
    let f = cut_at_nul(from_name);
    let from = text::utf8_lossy_string(f.as_slice());
    let o = cut_at_nul(on_name);
    let mount = text::utf8_lossy_string(o.as_slice());
    let label = base_of(from.as_str());
    MountedVolume { from, mount, label }
}

/// Whether the user can open a mounted volume.
pub open spec fn volume_browsable() -> spec_fn(MountedVolume) -> bool {
    |v: MountedVolume| is_browsable(v.mount@)
}

/// Where the volumes that the user can open are mounted.
pub fn fixed_drive_roots(volumes: &[MountedVolume]) -> (r: Vec<String>)
    ensures
        r@ == volumes@.filter(volume_browsable()).map_values(|v: MountedVolume| v.mount),
{
    let mut out: Vec<String> = Vec::new();
    let mut i: usize = 0;
    proof {
        crate::seqs::filter_nothing(volume_browsable());
        assert(volumes@.take(0) =~= Seq::empty());
    }
    assert(out@ =~= volumes@.take(0).filter(volume_browsable()).map_values(
        |v: MountedVolume| v.mount,
    ));
    while i < volumes.len()
        invariant
            i <= volumes.len(),
            out@ == volumes@.take(i as int).filter(volume_browsable()).map_values(
                |v: MountedVolume| v.mount,
            ),
        decreases volumes.len() - i,
    {
        proof {
            crate::seqs::filter_step(volumes@, i as int, volume_browsable());
        }
        if is_browsable_volume(volumes[i].mount.as_str()) {
            out.push(volumes[i].mount.clone());
        }
        assert(out@ =~= volumes@.take(i + 1).filter(volume_browsable()).map_values(
            |v: MountedVolume| v.mount,
        ));
        i += 1;
    }
    assert(volumes@.take(i as int) =~= volumes@);
    out
}

/// A volume's serial number from the two halves of its id.
pub fn volume_serial(first: u32, second: u32) -> (r: u64)
    ensures
        r == first * 0x1_0000_0000 + second,
{
    first as u64 * 0x1_0000_0000 + second as u64
}

/// Whether a path lies on a local volume, from the flags of its volume.
pub fn path_on_fixed_drive(flags: Option<u32>) -> (r: bool)
    ensures
        r == (flags matches Some(f) && f & 0x800 != 0),
{
    match flags {
        Some(f) => f & 0x800 != 0,
        None => false,
    }
}

/// The product, or the largest number.
fn capped_product(a: u64, b: u32) -> (r: u64)
    ensures
        r == rollup::capped(a * b),
{
    proof {
        let x = a as int;
        let y = b as int;
        assert(0 <= x * y) by (nonlinear_arith)
            requires
                0 <= x,
                0 <= y,
        ;
    }
    match a.checked_mul(b as u64) {
        Some(v) => v,
        None => u64::MAX,
    }
}

/// The space on a volume: its label is the last part of what is mounted.
pub fn disk_storage(from_name: &[u8], blocks: u64, available: u64, block_size: u32) -> (r:
    StorageSnapshot)
    ensures
        r.label.0@ == text::utf16(base_name(text::utf8_lossy(c_bytes(from_name@, 0)))),
        r.total == rollup::capped(blocks * block_size),
        r.free == rollup::capped(available * block_size),
        r.used == (if r.free <= r.total {
            r.total - r.free
        } else {
            0
        }),
{
    let raw = cut_at_nul(from_name);
    let from = text::utf8_lossy_string(raw.as_slice());
    let label = base_of(from.as_str());
    let total = capped_product(blocks, block_size);
    let free = capped_product(available, block_size);
    let used: u64 = if free <= total {
        total - free
    } else {
        0
    };
    StorageSnapshot { label: String16(text::units_of(label.as_str())), total, used, free }
}

/// Bytes of a block; 0 where the volume does not say.
pub fn cluster_size(block_size: Option<u32>) -> (r: u32)
    ensures
        r == (match block_size {
            Some(s) => s,
            None => 0,
        }),
{
    match block_size {
        Some(s) => s,
        None => 0,
    }
}

/// The Trash takes everything.
pub fn bin_policy_for(_display_path: &str) -> (r: BinPolicy)
    ensures
        !r.nuke_on_delete,
        r.max_capacity_mb is None,
{
    BinPolicy { nuke_on_delete: false, max_capacity_mb: None }
}

// ---------------------------------------------------------------------------
// What this system does not have
// ---------------------------------------------------------------------------

/// There is no elevation to ask for; the error says what to do instead.
pub fn relaunch_elevated_with(_scan_target: &str, _extra_args: &str) -> (r: Result<(), String>)
    ensures
        crate::platform::outcome(r) == Err::<(), Seq<char>>(
            "macOS uses Full Disk Access instead of elevation. Open System Settings → Privacy & Security → Full Disk Access and rescan."@,
        ),
{
    Err(
        "macOS uses Full Disk Access instead of elevation. Open System Settings → Privacy & Security → Full Disk Access and rescan.".to_owned(),
    )
}

/// There are no NTFS figures to read.
pub fn turbo_geometry(_drive_root: &str) -> (r: Result<(), String>)
    ensures
        crate::platform::outcome(r) == Err::<(), Seq<char>>(
            "The fast NTFS engine is Windows-only; the standard engine runs on macOS."@,
        ),
{
    Err("The fast NTFS engine is Windows-only; the standard engine runs on macOS.".to_owned())
}

/// There is no master file table to read.
pub fn turbo_read_mft() -> (r: Result<Vec<u8>, String>)
    ensures
        crate::platform::outcome(r) == Err::<Vec<u8>, Seq<char>>(
            "The fast NTFS engine is Windows-only."@,
        ),
{
    Err("The fast NTFS engine is Windows-only.".to_owned())
}

/// There is no such privilege.
pub fn enable_backup_privilege() -> (r: bool)
    ensures
        !r,
{
    false
}

/// There are no Store packages.
pub fn msix_packages() -> (r: Result<Vec<RawMsixApp>, String>)
    ensures
        r matches Ok(v) && v@.len() == 0,
{
    Ok(Vec::new())
}

/// There are no Store packages to remove.
pub fn msix_remove_package(_full_name: &str) -> (r: Result<(), String>)
    ensures
        crate::platform::outcome(r) == Err::<(), Seq<char>>("Store packages are Windows-only."@),
{
    Err("Store packages are Windows-only.".to_owned())
}

/// When programs last ran is not known.
pub fn userassist_entries() -> (r: Vec<(String, i64)>)
    ensures
        r@.len() == 0,
{
    Vec::new()
}

/// No icon is extracted; the interface shows its placeholder.
pub fn icon_png_data_url(_icon_path: &str) -> (r: Option<String>)
    ensures
        r is None,
{
    None
}

// ---------------------------------------------------------------------------
// Applications
// ---------------------------------------------------------------------------

/// What is known of one bundle.
#[derive(Clone, Debug)]
pub struct BundleFacts {
    pub file_name: String,
    pub path: String,
    pub display_name: Option<String>,
    pub bundle_name: Option<String>,
    pub version: Option<String>,
    pub bundle_id: Option<String>,
}

/// Where applications are installed, given the user's home.
pub fn application_roots(home: &Option<String>) -> (r: Vec<String>)
    ensures
        crate::scan::strings(r@) == seq![
            "/Applications"@,
            (match crate::scan::text_of(*home) {
                Some(h) => h,
                None => Seq::empty(),
            }) + "/Applications"@,
        ],
{
    let mut out: Vec<String> = Vec::new();
    out.push("/Applications".to_owned());
    let own = match home {
        Some(h) => text::join2(h.as_str(), "/Applications"),
        None => "/Applications".to_owned(),
    };
    assert(Seq::<char>::empty() + "/Applications"@ =~= "/Applications"@);
    out.push(own);
    assert(crate::scan::strings(out@) =~= seq!["/Applications"@, own@]);
    out
}

/// The name ends in `.app`.
pub open spec fn ends_in_app(s: Seq<char>) -> bool {
    s.len() >= 4 && s.subrange(s.len() - 4, s.len() as int) == seq!['.', 'a', 'p', 'p']
}

/// The name without `.app` at the end, however often it stands there.
pub open spec fn bare_name(s: Seq<char>) -> Seq<char>
    decreases s.len(),
{
    if ends_in_app(s) {
        bare_name(s.take(s.len() - 4))
    } else {
        s
    }
}

/// Whether a name ends in `.app`, at `to`.
fn app_at(cs: &[char], to: usize) -> (r: bool)
    requires
        to <= cs.len(),
    ensures
        r == ends_in_app(cs@.take(to as int)),
{
    if to < 4 {
        return false;
    }
    let ghost tail = cs@.take(to as int).subrange(to - 4, to as int);
    let r = cs[to - 4] == '.' && cs[to - 3] == 'a' && cs[to - 2] == 'p' && cs[to - 1] == 'p';
    assert(r == (tail == seq!['.', 'a', 'p', 'p'])) by {
        if r {
            assert(tail =~= seq!['.', 'a', 'p', 'p']);
        } else if tail == seq!['.', 'a', 'p', 'p'] {
            assert(tail[0] == '.' && tail[1] == 'a' && tail[2] == 'p' && tail[3] == 'p');
        }
    }
    r
}

/// The name without `.app` at the end.
fn without_app(cs: &[char]) -> (r: String)
    ensures
        r@ == bare_name(cs@),
{
    let mut to: usize = cs.len();
    assert(cs@.take(to as int) =~= cs@);
    while app_at(cs, to)
        invariant
            to <= cs.len(),
            bare_name(cs@) == bare_name(cs@.take(to as int)),
        decreases to,
    {
        assert(cs@.take(to as int).take(to - 4) =~= cs@.take(to - 4));
        to = to - 4;
    }
    let kept = text::slice_chars(cs, 0, to);
    assert(kept@ =~= cs@.take(to as int));
    text::string_of(kept.as_slice())
}

/// A text, or the other where there is none.
pub open spec fn or_else(a: Option<Seq<char>>, b: Seq<char>) -> Seq<char> {
    match a {
        Some(s) => s,
        None => b,
    }
}

/// The entry of a bundle: its id is the bundle id, or its bare file name; its
/// name is the display name, the bundle name, or the bare file name.
pub open spec fn bundle_of(app: RawRegistryApp, f: BundleFacts) -> bool {
    let bare = bare_name(f.file_name@);
    let id = crate::scan::text_of(f.bundle_id);
    &&& app.id@ == or_else(id, bare)
    &&& app.name@ == or_else(
        crate::scan::text_of(f.display_name),
        or_else(crate::scan::text_of(f.bundle_name), bare),
    )
    &&& app.publisher@ == or_else(id, Seq::empty())
    &&& app.version@ == or_else(crate::scan::text_of(f.version), "—"@)
    &&& app.install_location@ == f.path@
    &&& app.uninstall_string@.len() == 0
    &&& app.quiet_uninstall_string@.len() == 0
    &&& app.display_icon@.len() == 0
}

/// The file is a bundle of an application.
pub open spec fn is_bundle() -> spec_fn(BundleFacts) -> bool {
    |f: BundleFacts| ends_in_app(f.file_name@)
}

/// The entries describe the bundles, one for one.
pub open spec fn bundles_of(apps: Seq<RawRegistryApp>, facts: Seq<BundleFacts>) -> bool {
    apps.len() == facts.len() && forall|i: int|
        0 <= i < apps.len() ==> bundle_of(#[trigger] apps[i], facts[i])
}

/// The entry of a bundle.
fn bundle_app(f: &BundleFacts) -> (r: RawRegistryApp)
    ensures
        bundle_of(r, *f),
{
    let cs = text::chars_of(f.file_name.as_str());
    let bare = without_app(cs.as_slice());
    let name = match &f.display_name {
        Some(s) => s.clone(),
        None => match &f.bundle_name {
            Some(s) => s.clone(),
            None => bare.clone(),
        },
    };
    let publisher = match &f.bundle_id {
        Some(s) => s.clone(),
        None => String::new(),
    };
    let id = match &f.bundle_id {
        Some(s) => s.clone(),
        None => bare,
    };
    let version = match &f.version {
        Some(s) => s.clone(),
        None => "—".to_owned(),
    };
    RawRegistryApp {
        id,
        name,
        publisher,
        version,
        install_location: f.path.clone(),
        uninstall_string: String::new(),
        quiet_uninstall_string: String::new(),
        display_icon: String::new(),
    }
}

/// The applications among the files of the application folders, in order.
pub fn registry_uninstall_entries(files: &[BundleFacts]) -> (r: Vec<RawRegistryApp>)
    ensures
        bundles_of(r@, files@.filter(is_bundle())),
{
    let mut out: Vec<RawRegistryApp> = Vec::new();
    let mut i: usize = 0;
    proof {
        crate::seqs::filter_nothing(is_bundle());
        assert(files@.take(0) =~= Seq::empty());
    }
    while i < files.len()
        invariant
            i <= files.len(),
            bundles_of(out@, files@.take(i as int).filter(is_bundle())),
        decreases files.len() - i,
    {
        proof {
            crate::seqs::filter_step(files@, i as int, is_bundle());
        }
        let cs = text::chars_of(files[i].file_name.as_str());
        assert(cs@.take(cs@.len() as int) =~= cs@);
        if app_at(cs.as_slice(), cs.len()) {
            let app = bundle_app(&files[i]);
            out.push(app);
        }
        i += 1;
    }
    assert(files@.take(i as int) =~= files@);
    out
}

/// The path without trailing slashes.
pub open spec fn no_tail(s: Seq<char>) -> Seq<char>
    decreases s.len(),
{
    if s.len() > 0 && s.last() == '/' {
        no_tail(s.drop_last())
    } else {
        s
    }
}

/// A bundle is the folder itself or lies in it. Everything absolute lies in the
/// root folder, and nothing in a folder without a name.
pub open spec fn lies_under(bundle: Seq<char>, dir: Seq<char>) -> bool {
    if dir.len() == 0 {
        false
    } else if no_tail(dir).len() == 0 {
        bundle.len() > 0 && bundle[0] == '/'
    } else {
        no_tail(bundle) == no_tail(dir) || no_tail(dir).push('/').is_prefix_of(bundle)
    }
}

fn trimmed(cs: &[char]) -> (r: Vec<char>)
    ensures
        r@ == no_tail(cs@),
{
    let mut to: usize = cs.len();
    assert(cs@.subrange(0, to as int) =~= cs@);
    while to > 0 && cs[to - 1] == '/'
        invariant
            to <= cs.len(),
            no_tail(cs@) == no_tail(cs@.subrange(0, to as int)),
        decreases to,
    {
        assert(cs@.subrange(0, to as int).drop_last() =~= cs@.subrange(0, to - 1));
        to -= 1;
    }
    text::slice_chars(cs, 0, to)
}

/// Whether a bundle is the folder itself or lies in it.
pub fn bundle_under(bundle: &str, dir: &str) -> (r: bool)
    ensures
        r == lies_under(bundle@, dir@),
{
    let d = text::chars_of(dir);
    let b = text::chars_of(bundle);
    if d.len() == 0 {
        return false;
    }
    let mut head = trimmed(d.as_slice());
    if head.len() == 0 {
        return b.len() > 0 && b[0] == '/';
    }
    let bare = trimmed(b.as_slice());
    if text::same_chars(bare.as_slice(), head.as_slice()) {
        return true;
    }
    head.push('/');
    text::begins_with(b.as_slice(), head.as_slice())
}

/// One running application.
#[derive(Clone, Debug)]
pub struct RunningApp {
    /// Where its bundle lies, where it has one.
    pub bundle: Option<String>,
    pub name: Option<String>,
}

/// The applications to close, by position, and what each is called: its name,
/// or else where it lies.
pub open spec fn closing(apps: Seq<RunningApp>, dir: Seq<char>) -> Seq<(int, Seq<char>)>
    decreases apps.len(),
{
    if apps.len() == 0 {
        Seq::empty()
    } else {
        let rest = closing(apps.drop_last(), dir);
        match apps.last().bundle {
            Some(b) => if lies_under(b@, dir) {
                rest.push((apps.len() - 1, or_else(crate::scan::text_of(apps.last().name), b@)))
            } else {
                rest
            },
            None => rest,
        }
    }
}

/// Pairs of position and name as plain values.
pub open spec fn positions(v: Seq<(usize, String)>) -> Seq<(int, Seq<char>)> {
    v.map_values(|p: (usize, String)| (p.0 as int, p.1@))
}

/// Picks the running applications whose bundle is a folder or lies in it.
pub fn close_processes_under(dir: &str, apps: &[RunningApp]) -> (r: Vec<(usize, String)>)
    ensures
        positions(r@) == closing(apps@, dir@),
{
    let mut out: Vec<(usize, String)> = Vec::new();
    let mut i: usize = 0;
    assert(positions(out@) =~= closing(apps@.take(0), dir@));
    while i < apps.len()
        invariant
            i <= apps.len(),
            positions(out@) == closing(apps@.take(i as int), dir@),
        decreases apps.len() - i,
    {
        assert(apps@.take(i + 1).drop_last() =~= apps@.take(i as int));
        let ghost before = positions(out@);
        match &apps[i].bundle {
            Some(b) => {
                if bundle_under(b.as_str(), dir) {
                    let name = match &apps[i].name {
                        Some(n) => n.clone(),
                        None => b.clone(),
                    };
                    out.push((i, name));
                    assert(positions(out@) =~= before.push((i as int, name@)));
                }
            },
            None => {},
        }
        i += 1;
    }
    assert(apps@.take(i as int) =~= apps@);
    out
}

/// The words of a text from `i` on; `start` is where the current word begins.
pub open spec fn words_from(s: Seq<char>, start: int, i: int) -> Seq<Seq<char>>
    decreases s.len() - i,
{
    let word = if start < i {
        seq![s.subrange(start, i)]
    } else {
        Seq::empty()
    };
    if i < 0 || i >= s.len() {
        word
    } else if text::is_white(s[i]) {
        word + words_from(s, i + 1, i + 1)
    } else {
        words_from(s, start, i + 1)
    }
}

/// The words of a text: what stands between white space.
pub open spec fn words(s: Seq<char>) -> Seq<Seq<char>> {
    words_from(s, 0, 0)
}

/// Splits a text into its words.
fn words_of(s: &str) -> (r: Vec<String>)
    ensures
        crate::scan::strings(r@) == words(s@),
{
    let cs = text::chars_of(s);
    let n = cs.len();
    let mut out: Vec<String> = Vec::new();
    let mut start: usize = 0;
    let mut i: usize = 0;
    let ghost all = words(s@);
    assert(crate::scan::strings(out@) + all =~= all);
    while i < n
        invariant
            start <= i <= n == cs.len(),
            cs@ == s@,
            all == words(s@),
            all == crate::scan::strings(out@) + words_from(cs@, start as int, i as int),
        decreases n - i,
    {
        if text::white(cs[i]) {
            let ghost before = crate::scan::strings(out@);
            let ghost tail = words_from(cs@, i + 1, i + 1);
            if start < i {
                let w = text::slice_chars(cs.as_slice(), start, i);
                let w = text::string_of(w.as_slice());
                out.push(w);
                assert(crate::scan::strings(out@) =~= before.push(w@));
                assert(before + (seq![w@] + tail) =~= before.push(w@) + tail);
            } else {
                assert(Seq::<Seq<char>>::empty() + tail =~= tail);
            }
            start = i + 1;
        }
        i += 1;
    }
    let ghost before = crate::scan::strings(out@);
    if start < n {
        let w = text::slice_chars(cs.as_slice(), start, n);
        let w = text::string_of(w.as_slice());
        out.push(w);
        assert(crate::scan::strings(out@) =~= before.push(w@));
        assert(before + seq![w@] =~= before.push(w@));
    } else {
        assert(before + Seq::<Seq<char>>::empty() =~= before);
    }
    out
}

/// The program and the arguments of an uninstaller; an error for a blank
/// command line.
pub fn uninstaller_command(cmd_line: &str) -> (r: Result<(String, Vec<String>), String>)
    ensures
        match r {
            Ok((exe, args)) => words(cmd_line@).len() > 0 && exe@ == words(cmd_line@)[0]
                && crate::scan::strings(args@) == words(cmd_line@).drop_first(),
            Err(t) => words(cmd_line@).len() == 0 && t@ == "No uninstaller on macOS"@,
        },
{
    let parts = words_of(cmd_line);
    assert(crate::scan::strings(parts@).len() == parts@.len());
    if parts.len() == 0 {
        return Err("No uninstaller on macOS".to_owned());
    }
    let exe = parts[0].clone();
    let mut args: Vec<String> = Vec::new();
    let mut i: usize = 1;
    while i < parts.len()
        invariant
            1 <= i <= parts.len(),
            args@ == parts@.subrange(1, i as int),
        decreases parts.len() - i,
    {
        args.push(parts[i].clone());
        i += 1;
    }
    assert(crate::scan::strings(args@) =~= words(cmd_line@).drop_first());
    Ok((exe, args))
}

/// How a run of an uninstaller ended: its exit code, -1 where it has none, or
/// why it did not start.
pub fn launch_and_wait_uninstaller(exe: &str, end: Result<Option<i32>, String>) -> (r: Result<
    i32,
    String,
>)
    ensures
        crate::platform::outcome(r) == (match end {
            Ok(Some(code)) => Ok(code),
            Ok(None) => Ok(-1i32),
            Err(e) => Err("Couldn't run "@ + exe@ + ": "@ + e@),
        }),
{
    match end {
        Ok(code) => match code {
            Some(c) => Ok(c),
            None => Ok(-1),
        },
        Err(e) => {
            let head = text::join3("Couldn't run ", exe, ": ");
            Err(text::join2(head.as_str(), e.as_str()))
        },
    }
}

// ---------------------------------------------------------------------------
// The Trash
// ---------------------------------------------------------------------------

/// The texts with `; ` between them.
pub open spec fn joined(parts: Seq<Seq<char>>) -> Seq<char>
    decreases parts.len(),
{
    if parts.len() == 0 {
        Seq::empty()
    } else if parts.len() == 1 {
        parts[0]
    } else {
        joined(parts.drop_last()) + "; "@ + parts.last()
    }
}

fn join_all(parts: &[String]) -> (r: String)
    ensures
        r@ == joined(crate::scan::strings(parts@)),
{
    let mut out: String = String::new();
    let mut i: usize = 0;
    let ghost all = crate::scan::strings(parts@);
    assert(joined(all.take(0)) =~= Seq::empty());
    while i < parts.len()
        invariant
            i <= parts.len(),
            all == crate::scan::strings(parts@),
            out@ == joined(all.take(i as int)),
        decreases parts.len() - i,
    {
        let ghost before = out@;
        assert(all.take(i + 1).drop_last() =~= all.take(i as int));
        if i > 0 {
            out.append("; ");
        }
        out.append(parts[i].as_str());
        assert(i == 0 ==> out@ =~= all.take(1)[0]);
        i += 1;
    }
    assert(all.take(i as int) =~= all);
    out
}

/// Each path with what became of it: all were moved, or none counts as moved
/// and each carries the same text.
pub open spec fn trash_rows(
    rows: Seq<(String, Result<(), String>)>,
    paths: Seq<String>,
    errors: Seq<Seq<char>>,
) -> bool {
    rows.len() == paths.len() && forall|i: int|
        #![trigger rows[i]]
        0 <= i < rows.len() ==> rows[i].0@ == paths[i]@ && crate::platform::outcome(rows[i].1) == (
        if errors.len() == 0 {
            Ok::<(), Seq<char>>(())
        } else {
            Err(joined(errors))
        })
}

/// What became of a move to the Trash: an error where its end was never
/// reported.
pub fn recycle_to_trash(paths: &[String], reported: bool, errors: &[String]) -> (r: Result<
    Vec<(String, Result<(), String>)>,
    String,
>)
    ensures
        match r {
            Ok(rows) => reported && trash_rows(rows@, paths@, crate::scan::strings(errors@)),
            Err(t) => !reported && t@ == "Trash move timed out"@,
        },
{
    if !reported {
        return Err("Trash move timed out".to_owned());
    }
    let why = join_all(errors);
    let mut rows: Vec<(String, Result<(), String>)> = Vec::new();
    let mut i: usize = 0;
    while i < paths.len()
        invariant
            i <= paths.len(),
            why@ == joined(crate::scan::strings(errors@)),
            trash_rows(rows@, paths@.take(i as int), crate::scan::strings(errors@)),
        decreases paths.len() - i,
    {
        let end: Result<(), String> = if errors.len() == 0 {
            Ok(())
        } else {
            Err(why.clone())
        };
        rows.push((paths[i].clone(), end));
        i += 1;
    }
    assert(paths@.take(i as int) =~= paths@);
    Ok(rows)
}

// ---------------------------------------------------------------------------
// The whole machine
// ---------------------------------------------------------------------------

/// Processor time from the system's counters; kernel time contains idle time.
pub fn cpu_ticks(load: Option<(u32, u32, u32, u32)>) -> (r: CpuTicks)
    ensures
        match load {
            Some((user, system, idle, nice)) => r.idle == idle && r.kernel == system + idle
                && r.user == user + nice,
            None => r.idle == 0 && r.kernel == 0 && r.user == 0,
        },
{
    match load {
        Some((user, system, idle, nice)) => CpuTicks {
            idle: idle as u64,
            kernel: system as u64 + idle as u64,
            user: user as u64 + nice as u64,
        },
        None => CpuTicks { idle: 0, kernel: 0, user: 0 },
    }
}

/// One entry of the interface list.
#[derive(Clone, Debug)]
pub struct IfEntry {
    pub name: String,
    pub flags: u32,
    /// Octets in and out, on an entry that carries link data.
    pub link_data: Option<(u64, u64)>,
}

/// The entry counts: an `en` interface that is up and no loopback.
pub open spec fn counts(e: IfEntry) -> bool {
    "en"@.is_prefix_of(e.name@) && e.flags & 1 != 0 && e.flags & 8 == 0
}

/// Octets in and out over the entries that count; an interface appears once for
/// each address family, and only its link entry carries data.
pub open spec fn octets(rows: Seq<IfEntry>) -> (nat, nat)
    decreases rows.len(),
{
    if rows.len() == 0 {
        (0, 0)
    } else {
        let rest = octets(rows.drop_last());
        let row = rows.last();
        match row.link_data {
            Some((i, o)) => if counts(row) {
                (rest.0 + i as nat, rest.1 + o as nat)
            } else {
                rest
            },
            None => rest,
        }
    }
}

fn capped_sum(a: u64, b: u64) -> (r: u64)
    ensures
        r == rollup::capped(a + b),
{
    if a <= u64::MAX - b {
        a + b
    } else {
        u64::MAX
    }
}

/// Sums the octets over the entries that count.
pub fn network_octets(rows: &[IfEntry]) -> (r: (u64, u64))
    ensures
        r.0 == rollup::capped(octets(rows@).0 as int),
        r.1 == rollup::capped(octets(rows@).1 as int),
{
    let mut inn: u64 = 0;
    let mut out: u64 = 0;
    let mut i: usize = 0;
    let en = text::chars_of("en");
    assert(octets(rows@.take(0)) == (0nat, 0nat));
    while i < rows.len()
        invariant
            i <= rows.len(),
            en@ == "en"@,
            inn == rollup::capped(octets(rows@.take(i as int)).0 as int),
            out == rollup::capped(octets(rows@.take(i as int)).1 as int),
        decreases rows.len() - i,
    {
        let row = &rows[i];
        assert(rows@.take(i + 1).drop_last() =~= rows@.take(i as int));
        let name = text::chars_of(row.name.as_str());
        if text::begins_with(name.as_slice(), en.as_slice()) && row.flags & 1 != 0 && row.flags & 8
            == 0 {
            match row.link_data {
                Some((a, b)) => {
                    inn = capped_sum(inn, a);
                    out = capped_sum(out, b);
                },
                None => {},
            }
        }
        i += 1;
    }
    assert(rows@.take(i as int) =~= rows@);
    (inn, out)
}

/// The name of a process from the path of its image; `None` where the path is
/// not known.
pub fn proc_name(pid: u32, path: &Option<Vec<u8>>) -> (r: String)
    ensures
        r@ == (match *path {
            Some(b) => base_name(text::utf8_lossy(b@)),
            None => "pid "@ + text::decimal(pid as nat),
        }),
{
    match path {
        Some(b) => {
            let p = text::utf8_lossy_string(b.as_slice());
            base_of(p.as_str())
        },
        None => {
            let d = text::decimal_string(pid as u64);
            text::join2("pid ", d.as_str())
        },
    }
}

/// What the system says about one process.
#[derive(Clone, Debug)]
pub struct ProcFacts {
    pub pid: i32,
    pub path: Option<Vec<u8>>,
    /// Nanoseconds.
    pub system_time: u64,
    /// Nanoseconds.
    pub user_time: u64,
    pub resident: u64,
}

/// The rows of the processes with an id above 0; times in units of 100 ns.
pub open spec fn proc_rows(facts: Seq<ProcFacts>) -> Seq<crate::platform::Proc>
    decreases facts.len(),
{
    if facts.len() == 0 {
        Seq::empty()
    } else {
        let rest = proc_rows(facts.drop_last());
        let f = facts.last();
        if f.pid <= 0 {
            rest
        } else {
            rest.push(
                crate::platform::Proc {
                    pid: f.pid as nat,
                    name: match f.path {
                        Some(b) => base_name(text::utf8_lossy(b@)),
                        None => "pid "@ + text::decimal(f.pid as nat),
                    },
                    kernel: (f.system_time / 100) as nat,
                    user: (f.user_time / 100) as nat,
                    memory: f.resident as nat,
                },
            )
        }
    }
}

/// The rows of the processes.
pub fn process_snapshot(facts: &[ProcFacts]) -> (r: Vec<(u32, String, u64, u64, u64)>)
    ensures
        crate::platform::procs(r@) == proc_rows(facts@),
{
    let mut out: Vec<(u32, String, u64, u64, u64)> = Vec::new();
    let mut i: usize = 0;
    assert(crate::platform::procs(out@) =~= proc_rows(facts@.take(0)));
    while i < facts.len()
        invariant
            i <= facts.len(),
            crate::platform::procs(out@) == proc_rows(facts@.take(i as int)),
        decreases facts.len() - i,
    {
        let f = &facts[i];
        assert(facts@.take(i + 1).drop_last() =~= facts@.take(i as int));
        let ghost before = crate::platform::procs(out@);
        if f.pid > 0 {
            let name = proc_name(f.pid as u32, &f.path);
            out.push((f.pid as u32, name, f.system_time / 100, f.user_time / 100, f.resident));
            assert(crate::platform::procs(out@).drop_last() =~= before);
            assert(crate::platform::procs(out@) =~= before.push(
                crate::platform::procs(out@).last(),
            ));
        }
        i += 1;
    }
    assert(facts@.take(i as int) =~= facts@);
    out
}

/// Memory counters, in pages.
#[derive(Clone, Copy, Debug)]
pub struct VmFacts {
    pub free: u32,
    pub inactive: u32,
    pub speculative: u32,
    pub wired: u32,
    pub purgeable: u32,
    pub compressor: u32,
}

/// The page counts, as bytes, stay in range.
pub open spec fn vm_fits(vm: Option<VmFacts>, page: u64) -> bool {
    vm matches Some(v) ==> v.free + v.inactive + v.speculative <= u32::MAX && (v.free + v.inactive
        + v.speculative) * page <= u64::MAX && v.wired * page <= u64::MAX && v.purgeable * page
        <= u64::MAX && v.compressor * page <= u64::MAX
}

/// One snapshot from its parts. Available memory is what is free, inactive or
/// speculative; the number of processes stands for the threads too.
pub fn monitor_raw(
    ticks: CpuTicks,
    mem_total: u64,
    page: u64,
    vm: Option<VmFacts>,
    net: (u64, u64),
    volumes: Vec<VolumeSample>,
    procs: Vec<(u32, String, u64, u64, u64)>,
) -> (r: RawMonitor)
    requires
        vm_fits(vm, page),
        procs@.len() <= u32::MAX,
    ensures
        r.ticks == ticks,
        r.threads == procs@.len(),
        r.processes == procs@.len(),
        r.mem_total == mem_total,
        vm matches Some(v) ==> r.mem_available == (v.free + v.inactive + v.speculative) * page
            && r.kernel_paged == v.wired * page && r.kernel_nonpaged == v.purgeable * page
            && r.compressed_ws == (if v.compressor * page > 0 {
            Some((v.compressor * page) as u64)
        } else {
            None
        }),
        vm is None ==> r.mem_available == 0 && r.kernel_paged == 0 && r.kernel_nonpaged == 0
            && r.compressed_ws is None,
        r.system_cache == 0,
        r.commit_total == (if r.mem_available <= mem_total {
            mem_total - r.mem_available
        } else {
            0
        }),
        r.commit_limit == mem_total,
        r.net_in == net.0,
        r.net_out == net.1,
        r.volumes == volumes,
        r.procs == procs,
{
    let mut mem_available: u64 = 0;
    let mut kernel_paged: u64 = 0;
    let mut kernel_nonpaged: u64 = 0;
    let mut compressed: u64 = 0;
    match vm {
        Some(v) => {
            mem_available = pages(v.free + v.inactive + v.speculative, page);
            kernel_paged = pages(v.wired, page);
            kernel_nonpaged = pages(v.purgeable, page);
            compressed = pages(v.compressor, page);
        },
        None => {},
    }
    let processes: u32 = procs.len() as u32;
    let compressed_ws: Option<u64> = if compressed > 0 {
        Some(compressed)
    } else {
        None
    };
    RawMonitor {
        ticks,
        threads: processes,
        processes,
        mem_total,
        mem_available,
        kernel_paged,
        kernel_nonpaged,
        system_cache: 0,
        commit_total: if mem_available <= mem_total {
            mem_total - mem_available
        } else {
            0
        },
        commit_limit: mem_total,
        compressed_ws,
        net_in: net.0,
        net_out: net.1,
        volumes,
        procs,
    }
}

/// A number of pages in bytes.
fn pages(count: u32, page: u64) -> (r: u64)
    requires
        count * page <= u64::MAX,
    ensures
        r == count * page,
{
    count as u64 * page
}

/// The sample of a mounted volume, from its blocks, the blocks available and
/// the size of a block; zero where the volume does not say.
pub fn volume_sample(v: &MountedVolume, space: Option<(u64, u64, u32)>) -> (r: VolumeSample)
    requires
        space matches Some((blocks, available, size)) ==> blocks * size <= u64::MAX && available
            * size <= u64::MAX,
    ensures
        r.root@ == v.mount@,
        r.label@ == v.label@,
        match space {
            Some((blocks, available, size)) => r.total == blocks * size && r.free == available
                * size,
            None => r.total == 0 && r.free == 0,
        },
{
    let (total, free): (u64, u64) = match space {
        Some((blocks, available, size)) => (
            capped_product(blocks, size),
            capped_product(available, size),
        ),
        None => (0, 0),
    };
    VolumeSample { root: v.mount.clone(), label: v.label.clone(), total, free }
}

/// The processor's name from the system's buffer: what stands in front of the
/// first NUL, where it is UTF-8.
pub fn cpuid_brand(buffer: &[u8]) -> (r: Option<String>)
    ensures
        crate::scan::text_of(r) == ({
            let b = c_bytes(buffer@, 0);
            if vstd::utf8::valid_utf8(b) {
                Some(vstd::utf8::decode_utf8(b))
            } else {
                None
            }
        }),
{
    let b = cut_at_nul(buffer);
    text::utf8_string(b)
}

// ---------------------------------------------------------------------------
// Laws
// ---------------------------------------------------------------------------

/// Verbatim marks in front of a path go, however many there are; what is left
/// begins with none.
pub proof fn verbatim_marks_go(path: &str, r: String)
    requires
        call_ensures(plain_path, (path,), r),
    ensures
        r@.len() <= path@.len(),
        r@ == path@.skip(path@.len() - r@.len()),
        (path@.len() - r@.len()) % 4 == 0,
        forall|i: int|
            #![trigger path@[i]]
            0 <= i < path@.len() - r@.len() ==> path@[i] == (if i % 4 == 2 {
                '?'
            } else {
                '\\'
            }),
        !(r@.len() >= 4 && r@[0] == '\\' && r@[1] == '\\' && r@[2] == '?' && r@[3] == '\\'),
{
    marks_go(path@);
}

proof fn marks_go(s: Seq<char>)
    ensures
        ({
            let r = sidebar::no_verbatim_left(s);
            let n = s.len() - r.len();
            &&& 0 <= n
            &&& r == s.skip(n)
            &&& n % 4 == 0
            &&& forall|i: int|
                #![trigger s[i]]
                0 <= i < n ==> s[i] == (if i % 4 == 2 {
                    '?'
                } else {
                    '\\'
                })
            &&& !(r.len() >= 4 && r[0] == '\\' && r[1] == '\\' && r[2] == '?' && r[3] == '\\')
        }),
    decreases s.len(),
{
    let r = sidebar::no_verbatim_left(s);
    if s.len() >= 4 && s[0] == '\\' && s[1] == '\\' && s[2] == '?' && s[3] == '\\' {
        let t = s.skip(4);
        marks_go(t);
        let n = s.len() - r.len();
        assert(t.skip(n - 4) =~= s.skip(n));
        assert forall|i: int| #![trigger s[i]] 0 <= i < n implies s[i] == (if i % 4 == 2 {
            '?'
        } else {
            '\\'
        }) by {
            if i >= 4 {
                assert(t[i - 4] == s[i]);
            }
        }
    } else {
        assert(s.skip(0) =~= s);
    }
}

/// A path for the system is the plain path with slashes for backslashes, and
/// there is none where a NUL stands in it.
pub proof fn a_system_path_has_slashes(path: &str, plain: String, r: Option<String>)
    requires
        call_ensures(plain_path, (path,), plain),
        call_ensures(posix_path, (path,), r),
    ensures
        r is None <==> plain@.contains('\0'),
        r matches Some(t) ==> t@.len() == plain@.len() && forall|i: int|
            #![trigger t@[i]]
            0 <= i < t@.len() ==> (plain@[i] == '\\' ==> t@[i] == '/') && (plain@[i] != '\\' ==> t@[i]
                == plain@[i]),
{
}

/// What stands behind the last slash holds none, and a slash stands in front of
/// it unless it is everything.
proof fn base_is_last(s: Seq<char>)
    ensures
        ({
            let b = base_name(s);
            let n = s.len() - b.len();
            &&& 0 <= n
            &&& b == s.skip(n)
            &&& !b.contains('/')
            &&& n > 0 ==> s[n - 1] == '/'
        }),
    decreases s.len(),
{
    if s.len() > 0 && s.last() != '/' {
        let less = s.drop_last();
        base_is_last(less);
        let b = base_name(s);
        let n = s.len() - b.len();
        assert(less.skip(n).push(s.last()) =~= s.skip(n));
        assert forall|i: int| 0 <= i < b.len() implies b[i] != '/' by {
            if i < b.len() - 1 {
                assert(base_name(less)[i] == b[i]);
            }
        }
    } else {
        assert(s.skip(s.len() as int) =~= Seq::<char>::empty());
    }
}

/// A volume is labelled by the last part of what is mounted.
pub proof fn a_volume_is_labelled_by_its_last_part(from_name: &[u8], on_name: &[u8], r: MountedVolume)
    requires
        call_ensures(mounted_volume, (from_name, on_name), r),
    ensures
        r.label@.len() <= r.from@.len(),
        r.label@ == r.from@.skip(r.from@.len() - r.label@.len()),
        !r.label@.contains('/'),
        r.label@.len() < r.from@.len() ==> r.from@[r.from@.len() - r.label@.len() - 1] == '/',
{
    base_is_last(r.from@);
}

/// A field is read up to its first NUL, or whole where it has none.
pub proof fn a_field_ends_at_its_nul(from_name: &[u8], on_name: &[u8], r: MountedVolume, n: int)
    requires
        call_ensures(mounted_volume, (from_name, on_name), r),
        0 <= n <= on_name@.len(),
        n < on_name@.len() ==> on_name@[n] == 0,
        forall|i: int| 0 <= i < n ==> #[trigger] on_name@[i] != 0,
    ensures
        r.mount@ == text::utf8_lossy(on_name@.take(n)),
{
    cut_is_first(on_name@, 0, n);
}

proof fn cut_is_first(b: Seq<u8>, i: int, n: int)
    requires
        0 <= i <= n <= b.len(),
        n < b.len() ==> b[n] == 0,
        forall|k: int| 0 <= k < n ==> #[trigger] b[k] != 0,
    ensures
        c_bytes(b, i) == b.take(n),
    decreases n - i,
{
    if i < n {
        assert(b[i] != 0);
        cut_is_first(b, i + 1, n);
    } else if n == b.len() {
        assert(b.take(n) =~= b);
    }
}

/// Known folders lie where the system keeps them, below the home where they are
/// the user's own; without a home none is known.
pub proof fn known_folders_have_their_places(
    folder: KnownFolder,
    home: &Option<String>,
    r: Option<String>,
)
    requires
        call_ensures(known_folder, (folder, home), r),
    ensures
        r is Some <==> *home is Some,
        *home matches Some(h) ==> r matches Some(t) && {
            &&& folder == KnownFolder::Profile ==> t@ == h@
            &&& folder == KnownFolder::LocalAppData ==> t@ == h@ + "/Library/Application Support"@
            &&& folder == KnownFolder::RoamingAppData ==> t@ == h@ + "/Library/Application Support"@
            &&& folder == KnownFolder::ProgramData ==> t@ == "/Library"@
            &&& folder == KnownFolder::ProgramFiles ==> t@ == "/Applications"@
            &&& folder == KnownFolder::ProgramFilesX86 ==> t@ == "/Applications"@
            &&& folder == KnownFolder::ProgramFilesWindowsApps ==> t@ == "/System/Applications"@
            &&& folder == KnownFolder::UserPrograms ==> t@ == h@ + "/Applications"@
        },
{
}

/// The bin's own name opens the Trash; any other path opens itself.
pub proof fn the_bin_opens_the_trash(path: &str, home: &Option<String>, r: String)
    requires
        call_ensures(open_target, (path, home), r),
    ensures
        path@ != "shell:RecycleBinFolder"@ ==> r@ == path@,
        path@ == "shell:RecycleBinFolder"@ ==> (*home matches Some(h) ==> r@ == h@ + "/.Trash"@),
        path@ == "shell:RecycleBinFolder"@ && *home is None ==> r@ == "/"@ + "/.Trash"@,
{
}

/// The volumes that can be opened are the root and those under `/Volumes/` with
/// no part that begins with a dot, in order.
pub proof fn open_volumes_are_listed(volumes: &[MountedVolume], r: Vec<String>) -> (at: Seq<int>)
    requires
        call_ensures(fixed_drive_roots, (volumes,), r),
    ensures
        at.len() == r@.len(),
        forall|a: int, b: int| 0 <= a < b < at.len() ==> #[trigger] at[a] < #[trigger] at[b],
        forall|k: int|
            #![trigger at[k]]
            0 <= k < at.len() ==> 0 <= at[k] < volumes@.len() && r@[k]@ == volumes@[at[k]].mount@,
        forall|i: int|
            0 <= i < volumes@.len() ==> (at.contains(i) <==> (#[trigger] volumes@[i]).mount@
                == "/"@ || ("/Volumes/"@.is_prefix_of(volumes@[i].mount@) && forall|k: int|
                #![trigger volumes@[i].mount@[k]]
                0 <= k < volumes@[i].mount@.len() - 1 ==> !(volumes@[i].mount@[k] == '/'
                    && volumes@[i].mount@[k + 1] == '.'))),
{
    let at = crate::seqs::filter_places(volumes@, volume_browsable());
    assert forall|i: int| 0 <= i < volumes@.len() implies (text::has_sub(
        (#[trigger] volumes@[i]).mount@,
        "/."@,
    ) <==> exists|k: int|
        #![trigger volumes@[i].mount@[k]]
        0 <= k < volumes@[i].mount@.len() - 1 && volumes@[i].mount@[k] == '/'
            && volumes@[i].mount@[k + 1] == '.') by {
        dot_parts(volumes@[i].mount@);
    }
    at
}

/// A part begins with a dot where a dot follows a slash.
proof fn dot_parts(m: Seq<char>)
    ensures
        text::has_sub(m, "/."@) <==> exists|k: int|
            #![trigger m[k]]
            0 <= k < m.len() - 1 && m[k] == '/' && m[k + 1] == '.',
{
    reveal_strlit("/.");
    let d = "/."@;
    assert(d.len() == 2 && d[0] == '/' && d[1] == '.');
    if text::has_sub(m, d) {
        let k = choose|k: int| text::stands_at(m, d, k);
        assert(text::stands_at(m, d, k));
        assert(m.subrange(k, k + 2) == d);
        assert(m.subrange(k, k + 2)[0] == m[k]);
        assert(m.subrange(k, k + 2)[1] == m[k + 1]);
    }
    if exists|k: int| #![trigger m[k]] 0 <= k < m.len() - 1 && m[k] == '/' && m[k + 1] == '.' {
        let k = choose|k: int|
            #![trigger m[k]]
            0 <= k < m.len() - 1 && m[k] == '/' && m[k + 1] == '.';
        assert(m.subrange(k, k + 2) =~= d);
        assert(text::stands_at(m, d, k));
    }
}

/// Space is counted in blocks, up to the largest number; used and free make up
/// the whole.
pub proof fn space_is_counted_in_blocks(
    from_name: &[u8],
    blocks: u64,
    available: u64,
    size: u32,
    r: StorageSnapshot,
)
    requires
        call_ensures(disk_storage, (from_name, blocks, available, size), r),
    ensures
        blocks * size <= u64::MAX ==> r.total == blocks * size,
        blocks * size > u64::MAX ==> r.total == u64::MAX,
        available * size <= u64::MAX ==> r.free == available * size,
        available * size > u64::MAX ==> r.free == u64::MAX,
        r.free <= r.total ==> r.used + r.free == r.total,
        r.free > r.total ==> r.used == 0,
{
}

/// A local volume says so in its flags; an unknown one counts as remote.
pub proof fn local_volumes_say_so(flags: Option<u32>, r: bool)
    requires
        call_ensures(path_on_fixed_drive, (flags,), r),
    ensures
        flags is None ==> !r,
        flags matches Some(f) ==> (r <==> f & 0x800u32 != 0),
{
}

/// `.app` goes from the end of a name as often as it stands there.
proof fn app_endings_go(s: Seq<char>)
    ensures
        ({
            let b = bare_name(s);
            &&& b.len() <= s.len()
            &&& b == s.take(b.len() as int)
            &&& !ends_in_app(b)
            &&& !ends_in_app(s) ==> b == s
            &&& ends_in_app(s) ==> b.len() + 4 <= s.len()
        }),
    decreases s.len(),
{
    if ends_in_app(s) {
        let t = s.take(s.len() - 4);
        app_endings_go(t);
        assert(t.take(bare_name(s).len() as int) =~= s.take(bare_name(s).len() as int));
    } else {
        assert(s.take(s.len() as int) =~= s);
    }
}

/// The applications are the files whose name ends in `.app`, in order. Each goes
/// by its bundle id, and by its file name without that ending where it has none;
/// it is shown by its display name, else its bundle name, else that file name.
pub proof fn bundles_become_entries(files: &[BundleFacts], r: Vec<RawRegistryApp>) -> (at: Seq<int>)
    requires
        call_ensures(registry_uninstall_entries, (files,), r),
    ensures
        at.len() == r@.len(),
        forall|a: int, b: int| 0 <= a < b < at.len() ==> #[trigger] at[a] < #[trigger] at[b],
        forall|k: int|
            #![trigger at[k]]
            0 <= k < at.len() ==> {
                let f = files@[at[k]];
                let app = r@[k];
                &&& 0 <= at[k] < files@.len()
                &&& app.install_location@ == f.path@
                &&& f.bundle_id matches Some(id) ==> app.id@ == id@ && app.publisher@ == id@
                &&& f.bundle_id is None ==> app.publisher@.len() == 0 && app.id@.len() + 4
                    <= f.file_name@.len() && app.id@ == f.file_name@.take(app.id@.len() as int)
                &&& f.display_name matches Some(n) ==> app.name@ == n@
                &&& f.display_name is None && f.bundle_name is Some ==> app.name@
                    == f.bundle_name->0@
                &&& f.display_name is None && f.bundle_name is None ==> app.name@.len() + 4
                    <= f.file_name@.len() && app.name@ == f.file_name@.take(
                    app.name@.len() as int,
                )
                &&& f.version matches Some(v) ==> app.version@ == v@
                &&& app.uninstall_string@.len() == 0 && app.quiet_uninstall_string@.len() == 0
                    && app.display_icon@.len() == 0
            },
        forall|i: int|
            0 <= i < files@.len() ==> (at.contains(i) <==> {
                let n = (#[trigger] files@[i]).file_name@;
                n.len() >= 4 && n[n.len() - 4] == '.' && n[n.len() - 3] == 'a' && n[n.len() - 2]
                    == 'p' && n[n.len() - 1] == 'p'
            }),
{
    let at = crate::seqs::filter_places(files@, is_bundle());
    assert forall|k: int| #![trigger at[k]] 0 <= k < at.len() implies bundle_of(
        r@[k],
        files@[at[k]],
    ) && ends_in_app(files@[at[k]].file_name@) by {
        assert(files@.filter(is_bundle())[k] == files@[at[k]]);
    }
    assert forall|i: int| #![trigger files@[i]] 0 <= i < files@.len() implies (at.contains(i) <==> {
        let n = files@[i].file_name@;
        n.len() >= 4 && n[n.len() - 4] == '.' && n[n.len() - 3] == 'a' && n[n.len() - 2] == 'p'
            && n[n.len() - 1] == 'p'
    }) by {
        let n = files@[i].file_name@;
        app_letters(n);
    }
    assert forall|k: int| #![trigger at[k]] 0 <= k < at.len() implies ({
        let bare = bare_name(files@[at[k]].file_name@);
        bare.len() + 4 <= files@[at[k]].file_name@.len() && bare == files@[at[k]].file_name@.take(
            bare.len() as int,
        )
    }) by {
        app_endings_go(files@[at[k]].file_name@);
    }
    at
}

/// The four characters of the ending.
proof fn app_letters(n: Seq<char>)
    ensures
        ends_in_app(n) <==> n.len() >= 4 && n[n.len() - 4] == '.' && n[n.len() - 3] == 'a' && n[
            n.len() - 2] == 'p' && n[n.len() - 1] == 'p',
{
    if n.len() >= 4 {
        let t = n.subrange(n.len() - 4, n.len() as int);
        let a = seq!['.', 'a', 'p', 'p'];
        assert(t[0] == n[n.len() - 4] && t[1] == n[n.len() - 3] && t[2] == n[n.len() - 2] && t[3]
            == n[n.len() - 1]);
        if t == a {
            assert(t[0] == a[0] && t[1] == a[1] && t[2] == a[2] && t[3] == a[3]);
        }
        if t[0] == '.' && t[1] == 'a' && t[2] == 'p' && t[3] == 'p' {
            assert(t =~= a);
        }
    }
}

/// Trailing slashes make no difference to whether a bundle lies in a folder: it
/// does where it is the folder or its path goes on behind the folder's and a
/// slash.
pub proof fn a_bundle_lies_behind_its_folder(bundle: &str, dir: &str, r: bool)
    requires
        call_ensures(bundle_under, (bundle, dir), r),
        bundle@.len() > 0,
        bundle@.last() != '/',
        dir@.len() > 0,
        dir@.last() != '/',
    ensures
        r <==> bundle@ == dir@ || (dir@.len() < bundle@.len() && bundle@[dir@.len() as int] == '/'
            && bundle@.take(dir@.len() as int) == dir@),
{
    let head = dir@.push('/');
    if head.is_prefix_of(bundle@) {
        assert(bundle@.take(head.len() as int) =~= head);
        assert(bundle@[dir@.len() as int] == head[dir@.len() as int]);
        assert(bundle@.take(dir@.len() as int) =~= dir@) by {
            assert forall|i: int| 0 <= i < dir@.len() implies bundle@[i] == dir@[i] by {
                assert(bundle@.take(head.len() as int)[i] == head[i]);
            }
        }
    }
    if dir@.len() < bundle@.len() && bundle@[dir@.len() as int] == '/' && bundle@.take(
        dir@.len() as int,
    ) == dir@ {
        assert(bundle@.take(head.len() as int) =~= head) by {
            assert forall|i: int| 0 <= i < dir@.len() implies bundle@[i] == dir@[i] by {
                assert(bundle@.take(dir@.len() as int)[i] == dir@[i]);
            }
        }
        assert(head.is_prefix_of(bundle@));
    }
}

/// Nothing lies in a folder without a name, every absolute path in the root, and
/// one slash more at the end of the folder changes nothing.
pub proof fn slashes_at_the_end_do_not_count(
    bundle: &str,
    dir: &str,
    more: &str,
    r: bool,
    m: bool,
)
    requires
        call_ensures(bundle_under, (bundle, dir), r),
        call_ensures(bundle_under, (bundle, more), m),
        more@ == dir@.push('/'),
    ensures
        dir@.len() == 0 ==> !r && (m <==> bundle@.len() > 0 && bundle@[0] == '/'),
        dir@.len() > 0 ==> r == m,
{
    assert(more@.drop_last() =~= dir@);
    assert(no_tail(more@) == no_tail(dir@));
}

/// Where the applications to close stand.
proof fn closing_places(apps: Seq<RunningApp>, dir: Seq<char>)
    ensures
        forall|k: int|
            0 <= k < closing(apps, dir).len() ==> {
                let (i, n) = #[trigger] closing(apps, dir)[k];
                &&& 0 <= i < apps.len()
                &&& apps[i].bundle is Some
                &&& lies_under(apps[i].bundle->0@, dir)
                &&& n == or_else(crate::scan::text_of(apps[i].name), apps[i].bundle->0@)
            },
        forall|a: int, b: int|
            0 <= a < b < closing(apps, dir).len() ==> (#[trigger] closing(apps, dir)[a]).0 < (
            #[trigger] closing(apps, dir)[b]).0,
        forall|i: int|
            0 <= i < apps.len() && (#[trigger] apps[i]).bundle is Some && lies_under(
                apps[i].bundle->0@,
                dir,
            ) ==> exists|k: int|
                0 <= k < closing(apps, dir).len() && (#[trigger] closing(apps, dir)[k]).0 == i,
    decreases apps.len(),
{
    if apps.len() > 0 {
        let less = apps.drop_last();
        closing_places(less, dir);
        let c0 = closing(less, dir);
        let c = closing(apps, dir);
        let n = apps.len() - 1;
        assert forall|k: int| 0 <= k < c.len() implies {
            let (i, n) = #[trigger] c[k];
            &&& 0 <= i < apps.len()
            &&& apps[i].bundle is Some
            &&& lies_under(apps[i].bundle->0@, dir)
            &&& n == or_else(crate::scan::text_of(apps[i].name), apps[i].bundle->0@)
        } by {
            if k < c0.len() {
                assert(c0[k] == c[k]);
                assert(less[c0[k].0] == apps[c0[k].0]);
            }
        }
        assert forall|a: int, b: int| 0 <= a < b < c.len() implies (#[trigger] c[a]).0 < (
        #[trigger] c[b]).0 by {
            assert(c0[a] == c[a]);
            if b < c0.len() {
                assert(c0[b] == c[b]);
            }
        }
        assert forall|i: int|
            0 <= i < apps.len() && (#[trigger] apps[i]).bundle is Some && lies_under(
                apps[i].bundle->0@,
                dir,
            ) implies exists|k: int| 0 <= k < c.len() && (#[trigger] c[k]).0 == i by {
            if i < n {
                assert(less[i] == apps[i]);
                let k = choose|k: int| 0 <= k < c0.len() && (#[trigger] c0[k]).0 == i;
                assert(c[k] == c0[k]);
            } else {
                assert(c[c0.len() as int].0 == n);
            }
        }
    }
}

/// An application is closed exactly where its bundle is known and lies in the
/// folder; it is called by its name, or by its bundle where it has none.
pub proof fn applications_below_a_folder_are_closed(
    dir: &str,
    apps: &[RunningApp],
    r: Vec<(usize, String)>,
    one: int,
    bundle: &str,
    under: bool,
)
    requires
        call_ensures(close_processes_under, (dir, apps), r),
        0 <= one < apps@.len(),
        apps@[one].bundle is Some,
        apps@[one].bundle->0@ == bundle@,
        call_ensures(bundle_under, (bundle, dir), under),
    ensures
        under <==> exists|k: int| 0 <= k < r@.len() && (#[trigger] r@[k]).0 == one,
        forall|k: int|
            #![trigger r@[k]]
            0 <= k < r@.len() ==> {
                let app = apps@[r@[k].0 as int];
                &&& r@[k].0 < apps@.len()
                &&& app.bundle is Some
                &&& app.name matches Some(n) ==> r@[k].1@ == n@
                &&& app.name is None ==> r@[k].1@ == app.bundle->0@
            },
        forall|a: int, b: int| 0 <= a < b < r@.len() ==> (#[trigger] r@[a]).0 < (#[trigger] r@[b]).0,
{
    closing_places(apps@, dir@);
    let c = closing(apps@, dir@);
    let p = positions(r@);
    assert(p == c);
    assert(p.len() == r@.len());
    assert forall|k: int| 0 <= k < r@.len() implies c[k] == ((#[trigger] r@[k]).0 as int, r@[k].1@) by {
        assert(p[k] == (r@[k].0 as int, r@[k].1@));
    }
    assert(under == lies_under(bundle@, dir@));
    if under {
        let k = choose|k: int| 0 <= k < c.len() && (#[trigger] c[k]).0 == one;
        assert(r@[k].0 == one);
    }
}

/// Where the words of a text begin and end.
proof fn word_cuts(s: Seq<char>, start: int, i: int) -> (cuts: Seq<(int, int)>)
    requires
        0 <= start <= i <= s.len(),
        start == 0 || text::is_white(s[start - 1]),
        forall|j: int| start <= j < i ==> !text::is_white(#[trigger] s[j]),
    ensures
        cuts.len() == words_from(s, start, i).len(),
        forall|k: int|
            #![trigger cuts[k]]
            0 <= k < cuts.len() ==> {
                let (a, b) = cuts[k];
                &&& start <= a < b <= s.len()
                &&& words_from(s, start, i)[k] == s.subrange(a, b)
                &&& forall|i: int| a <= i < b ==> !text::is_white(#[trigger] s[i])
                &&& a == 0 || text::is_white(s[a - 1])
                &&& b == s.len() || text::is_white(s[b])
            },
        forall|j: int, k: int|
            0 <= j < k < cuts.len() ==> (#[trigger] cuts[j]).1 < (#[trigger] cuts[k]).0,
        forall|j: int|
            start <= j < s.len() && !text::is_white(#[trigger] s[j]) ==> exists|k: int|
                0 <= k < cuts.len() && (#[trigger] cuts[k]).0 <= j < cuts[k].1,
    decreases s.len() - i,
{
    if i >= s.len() {
        if start < i {
            let cuts = seq![(start, i)];
            assert(cuts[0] == (start, i));
            cuts
        } else {
            Seq::empty()
        }
    } else if text::is_white(s[i]) {
        let rest = word_cuts(s, i + 1, i + 1);
        if start < i {
            let cuts = seq![(start, i)] + rest;
            assert forall|j: int|
                start <= j < s.len() && !text::is_white(#[trigger] s[j]) implies exists|k: int|
                0 <= k < cuts.len() && (#[trigger] cuts[k]).0 <= j < cuts[k].1 by {
                if j < i {
                    assert(cuts[0] == (start, i));
                } else {
                    let k = choose|k: int|
                        0 <= k < rest.len() && (#[trigger] rest[k]).0 <= j < rest[k].1;
                    assert(cuts[k + 1] == rest[k]);
                }
            }
            cuts
        } else {
            assert(Seq::<Seq<char>>::empty() + words_from(s, i + 1, i + 1) =~= words_from(
                s,
                i + 1,
                i + 1,
            ));
            rest
        }
    } else {
        word_cuts(s, start, i + 1)
    }
}

/// A command is the first word of its line, and the other words are its
/// arguments, in order; a line of white space alone is none.
pub proof fn a_command_is_the_first_word(
    line: &str,
    r: Result<(String, Vec<String>), String>,
) -> (cuts: Seq<(int, int)>)
    requires
        call_ensures(uninstaller_command, (line,), r),
    ensures
        r is Err <==> cuts.len() == 0,
        r matches Ok((exe, args)) ==> cuts.len() == args@.len() + 1 && exe@ == line@.subrange(
            cuts[0].0,
            cuts[0].1,
        ) && forall|k: int|
            #![trigger args@[k]]
            0 <= k < args@.len() ==> args@[k]@ == line@.subrange(cuts[k + 1].0, cuts[k + 1].1),
        forall|k: int|
            #![trigger cuts[k]]
            0 <= k < cuts.len() ==> {
                let (a, b) = cuts[k];
                &&& 0 <= a < b <= line@.len()
                &&& forall|i: int| a <= i < b ==> !text::is_white(#[trigger] line@[i])
                &&& a == 0 || text::is_white(line@[a - 1])
                &&& b == line@.len() || text::is_white(line@[b])
            },
        forall|j: int, k: int|
            0 <= j < k < cuts.len() ==> (#[trigger] cuts[j]).1 < (#[trigger] cuts[k]).0,
        forall|j: int|
            0 <= j < line@.len() && !text::is_white(#[trigger] line@[j]) ==> exists|k: int|
                0 <= k < cuts.len() && (#[trigger] cuts[k]).0 <= j < cuts[k].1,
{
    let cuts = word_cuts(line@, 0, 0);
    if let Ok((exe, args)) = r {
        let t = crate::scan::strings(args@);
        assert(t.len() == args@.len());
        assert(cuts[0].0 <= cuts[0].1);
        assert forall|k: int| #![trigger args@[k]] 0 <= k < args@.len() implies args@[k]@
            == line@.subrange(cuts[k + 1].0, cuts[k + 1].1) by {
            assert(t[k] == args@[k]@);
            assert(words(line@).drop_first()[k] == words(line@)[k + 1]);
        }
    }
    cuts
}

/// A run that ended has its exit code, minus one where it has none; one that did
/// not start says why.
pub proof fn a_run_ends_with_its_code(
    exe: &str,
    end: Result<Option<i32>, String>,
    r: Result<i32, String>,
)
    requires
        call_ensures(launch_and_wait_uninstaller, (exe, end), r),
    ensures
        end is Ok <==> r is Ok,
        end matches Ok(Some(code)) ==> r matches Ok(v) && v == code,
        end matches Ok(None) ==> r matches Ok(v) && v == -1,
        end matches Err(e) ==> r matches Err(t) && t@ == "Couldn't run "@ + exe@ + ": "@ + e@,
{
}

/// A move to the Trash reports every path in order: all were moved where nothing
/// went wrong, and none counts as moved otherwise. Without a report it failed.
pub proof fn a_move_to_the_trash_is_all_or_nothing(
    paths: &[String],
    reported: bool,
    errors: &[String],
    r: Result<Vec<(String, Result<(), String>)>, String>,
)
    requires
        call_ensures(recycle_to_trash, (paths, reported, errors), r),
    ensures
        r is Ok <==> reported,
        r matches Ok(rows) ==> rows@.len() == paths@.len() && forall|i: int|
            #![trigger rows@[i]]
            0 <= i < rows@.len() ==> {
                &&& rows@[i].0@ == paths@[i]@
                &&& rows@[i].1 is Ok <==> errors@.len() == 0
                &&& rows@[i].1 matches Err(t) ==> errors@.len() == 1 ==> t@ == errors@[0]@
                &&& rows@[i].1 matches Err(t) ==> errors@.len() == 2 ==> t@ == errors@[0]@ + "; "@
                    + errors@[1]@
            },
{
    let e = crate::scan::strings(errors@);
    assert(e.len() == errors@.len());
    reveal_with_fuel(joined, 3);
    if errors@.len() == 1 {
        assert(e[0] == errors@[0]@);
    }
    if errors@.len() == 2 {
        assert(e[0] == errors@[0]@ && e[1] == errors@[1]@);
        assert(e.drop_last()[0] == e[0]);
    }
}

/// One entry more adds its octets where it carries link data, its name begins
/// with `en`, and its flags say up and no loopback; it adds nothing otherwise.
pub proof fn an_interface_adds_its_octets(
    rows: &[IfEntry],
    more: &[IfEntry],
    row: IfEntry,
    r: (u64, u64),
    m: (u64, u64),
)
    requires
        call_ensures(network_octets, (rows,), r),
        call_ensures(network_octets, (more,), m),
        more@ == rows@.push(row),
    ensures
        rows@.len() == 0 ==> r == (0u64, 0u64),
        row.link_data matches Some((i, o)) ==> "en"@.is_prefix_of(row.name@) && row.flags & 1u32
            != 0 && row.flags & 8u32 == 0 ==> m.0 == (if r.0 + i > u64::MAX {
            u64::MAX as int
        } else {
            r.0 + i
        }) && m.1 == (if r.1 + o > u64::MAX {
            u64::MAX as int
        } else {
            r.1 + o
        }),
        row.link_data is None || !"en"@.is_prefix_of(row.name@) || row.flags & 1u32 == 0 || row.flags
            & 8u32 != 0 ==> m == r,
{
    assert(more@.drop_last() =~= rows@);
}

/// A process more is a row more where its id is above zero: its times are
/// counted in hundreds of nanoseconds, and its name is the last part of its path.
pub proof fn a_process_is_a_row(
    facts: &[ProcFacts],
    more: &[ProcFacts],
    f: ProcFacts,
    r: Vec<(u32, String, u64, u64, u64)>,
    m: Vec<(u32, String, u64, u64, u64)>,
    path: &Option<Vec<u8>>,
    pid: u32,
    name: String,
)
    requires
        call_ensures(process_snapshot, (facts,), r),
        call_ensures(process_snapshot, (more,), m),
        more@ == facts@.push(f),
        *path == f.path,
        pid == f.pid,
        call_ensures(proc_name, (pid, path), name),
    ensures
        facts@.len() == 0 ==> r@.len() == 0,
        f.pid > 0 ==> m@.len() == r@.len() + 1 && m@.last().0 == f.pid && m@.last().1@ == name@
            && m@.last().2 == f.system_time / 100 && m@.last().3 == f.user_time / 100
            && m@.last().4 == f.resident,
        f.pid <= 0 ==> m@.len() == r@.len(),
        f.path is None ==> name@ == "pid "@ + text::decimal(pid as nat),
{
    assert(more@.drop_last() =~= facts@);
    let pr = crate::platform::procs(r@);
    let pm = crate::platform::procs(m@);
    assert(pr.len() == r@.len() && pm.len() == m@.len());
    if f.pid > 0 {
        assert(pm.last() == pm[m@.len() - 1]);
    }
}

/// Kernel time counts idle time too, and user time the nice one; without figures
/// all are zero.
pub proof fn kernel_time_holds_idle_time(load: Option<(u32, u32, u32, u32)>, r: CpuTicks)
    requires
        call_ensures(cpu_ticks, (load,), r),
    ensures
        load matches Some((user, system, idle, nice)) ==> r.idle == idle && r.kernel - r.idle
            == system && r.user - nice == user,
        load is None ==> r.idle == 0 && r.kernel == 0 && r.user == 0,
{
}

/// Applications are looked for in the system's folder, then in the user's own.
pub proof fn applications_lie_in_two_folders(home: &Option<String>, r: Vec<String>)
    requires
        call_ensures(application_roots, (home,), r),
    ensures
        r@.len() == 2,
        r@[0]@ == "/Applications"@,
        *home matches Some(h) ==> r@[1]@ == h@ + "/Applications"@,
{
    let t = crate::scan::strings(r@);
    assert(t.len() == r@.len());
    assert(t[0] == r@[0]@ && t[1] == r@[1]@);
}

/// A volume is sampled where it is mounted, with its space in bytes; an unknown
/// space is none.
pub proof fn a_volume_is_sampled_with_its_space(
    v: &MountedVolume,
    space: Option<(u64, u64, u32)>,
    r: VolumeSample,
)
    requires
        space matches Some((blocks, available, size)) ==> blocks * size <= u64::MAX && available
            * size <= u64::MAX,
        call_ensures(volume_sample, (v, space), r),
    ensures
        r.root@ == v.mount@,
        r.label@ == v.label@,
        space matches Some((blocks, available, size)) ==> r.total == blocks * size && r.free
            == available * size,
        space is None ==> r.total == 0 && r.free == 0,
{
}

/// A snapshot's memory: what is free, inactive or speculative is available, the
/// rest of the whole is committed.
pub proof fn available_and_committed_make_the_total(
    ticks: CpuTicks,
    mem_total: u64,
    page: u64,
    vm: Option<VmFacts>,
    net: (u64, u64),
    volumes: Vec<VolumeSample>,
    procs: Vec<(u32, String, u64, u64, u64)>,
    r: RawMonitor,
)
    requires
        vm_fits(vm, page),
        procs@.len() <= u32::MAX,
        call_ensures(monitor_raw, (ticks, mem_total, page, vm, net, volumes, procs), r),
    ensures
        r.mem_total == mem_total,
        r.mem_available <= mem_total ==> r.commit_total + r.mem_available == r.commit_limit,
        r.commit_limit == mem_total,
        vm matches Some(v) ==> r.mem_available == (v.free + v.inactive + v.speculative) * page
            && r.kernel_paged == v.wired * page && r.kernel_nonpaged == v.purgeable * page,
        vm matches Some(v) ==> (r.compressed_ws is Some <==> v.compressor * page > 0),
        vm matches Some(v) ==> r.compressed_ws matches Some(c) ==> c == v.compressor * page,
        r.threads == procs@.len() && r.processes == procs@.len(),
        r.net_in == net.0 && r.net_out == net.1,
        r.procs@ == procs@ && r.volumes@ == volumes@ && r.ticks == ticks,
{
}

} // verus!
