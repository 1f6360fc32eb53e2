//! Installed programs on Windows: registry entries, Store packages, and when a
//! program last ran.
use vstd::prelude::*;

use crate::bytes;
use crate::platform::win;
use crate::platform::{RawMsixApp, RawRegistryApp};
use crate::text;

verus! {

/// A registry hive.
#[derive(Clone, Copy, Debug, PartialEq, Eq, Structural)]
pub enum Hive {
    LocalMachine,
    CurrentUser,
    Other,
}

/// A hive's name in ids.
pub open spec fn hive_text(h: Hive) -> Seq<char> {
    match h {
        Hive::LocalMachine => "HKLM"@,
        Hive::CurrentUser => "HKCU"@,
        Hive::Other => "HK?"@,
    }
}

/// A hive's name in ids.
pub fn hive_name(h: Hive) -> (r: &'static str)
    ensures
        r@ == hive_text(h),
{
    match h {
        Hive::LocalMachine => "HKLM",
        Hive::CurrentUser => "HKCU",
        Hive::Other => "HK?",
    }
}

/// Where uninstall entries stand: the 64-bit view and the 32-bit view of the
/// machine's hive, and the user's hive.
pub fn uninstall_roots() -> (r: Vec<(Hive, &'static str)>)
    ensures
        r@.len() == 3,
        r@[0].0 == Hive::LocalMachine,
        r@[0].1@ == r"SOFTWARE\Microsoft\Windows\CurrentVersion\Uninstall"@,
        r@[1].0 == Hive::LocalMachine,
        r@[1].1@ == r"SOFTWARE\WOW6432Node\Microsoft\Windows\CurrentVersion\Uninstall"@,
        r@[2].0 == Hive::CurrentUser,
        r@[2].1@ == r"Software\Microsoft\Windows\CurrentVersion\Uninstall"@,
{
    let mut out: Vec<(Hive, &'static str)> = Vec::new();
    out.push((Hive::LocalMachine, r"SOFTWARE\Microsoft\Windows\CurrentVersion\Uninstall"));
    out.push(
        (Hive::LocalMachine, r"SOFTWARE\WOW6432Node\Microsoft\Windows\CurrentVersion\Uninstall"),
    );
    out.push((Hive::CurrentUser, r"Software\Microsoft\Windows\CurrentVersion\Uninstall"));
    out
}

// ---------------------------------------------------------------------------
// Values
// ---------------------------------------------------------------------------

/// Index of the first NUL from `i` on, or the length where there is none.
pub open spec fn nul_from(u: Seq<u16>, i: int) -> int
    decreases u.len() - i,
{
    if i < 0 || i >= u.len() || u[i] == 0 {
        i
    } else {
        nul_from(u, i + 1)
    }
}

/// The text in front of the first NUL.
pub open spec fn value_text(u: Seq<u16>) -> Seq<char> {
    text::lossy(u.take(nul_from(u, 0)))
}

/// Decodes a string value up to its NUL.
pub fn reg_text(raw: &[u16]) -> (r: String)
    ensures
        r@ == value_text(raw@),
{
    let mut kept: Vec<u16> = Vec::new();
    let mut i: usize = 0;
    while i < raw.len() && raw[i] != 0
        invariant
            i <= raw.len(),
            kept@ == raw@.take(i as int),
            nul_from(raw@, 0) == nul_from(raw@, i as int),
        decreases raw.len() - i,
    {
        kept.push(raw[i]);
        assert(kept@ =~= raw@.take(i + 1));
        i += 1;
    }
    text::lossy_string(kept.as_slice())
}

/// A string value from its type, its length in bytes and its content: plain
/// (1) and expandable (2) strings of some length.
pub fn reg_query_string(kind: u32, len: u32, raw: &[u16]) -> (r: Option<String>)
    ensures
        crate::scan::text_of(r) == (if (kind == 1 || kind == 2) && len > 0 {
            Some(value_text(raw@))
        } else {
            None
        }),
{
    if (kind == 1 || kind == 2) && len > 0 {
        Some(reg_text(raw))
    } else {
        None
    }
}

/// The machine's id: a plain string value of some length.
pub fn machine_guid(kind: u32, len: u32, raw: &[u16]) -> (r: Option<String>)
    ensures
        crate::scan::text_of(r) == (if kind == 1 && len > 0 {
            Some(value_text(raw@))
        } else {
            None
        }),
{
    if kind == 1 && len > 0 {
        Some(reg_text(raw))
    } else {
        None
    }
}

/// A number value from its type (4) and its four bytes.
pub fn reg_query_dword(kind: u32, data: &[u8]) -> (r: Option<u32>)
    ensures
        r == (if kind == 4 && data@.len() == 4 {
            Some(bytes::le(data@, 0, 4) as u32)
        } else {
            None
        }),
{
    if kind == 4 && data.len() == 4 {
        Some(bytes::u32_at(data, 0))
    } else {
        None
    }
}

/// Whether there is anything but white space.
pub open spec fn is_blank(s: Seq<char>) -> bool {
    text::trim(s).len() == 0
}

/// A value that says something.
pub open spec fn said(v: Option<String>) -> Option<Seq<char>> {
    match v {
        Some(s) => if is_blank(s@) {
            None
        } else {
            Some(s@)
        },
        None => None,
    }
}

/// The value, or "" where it says nothing.
pub open spec fn said_or_empty(v: Option<String>) -> Seq<char> {
    match said(v) {
        Some(s) => s,
        None => Seq::empty(),
    }
}

/// Keeps a value that says something.
fn non_blank(v: &Option<String>) -> (r: Option<String>)
    ensures
        crate::scan::text_of(r) == said(*v),
{
    match v {
        Some(s) => {
            let cs = text::chars_of(s.as_str());
            let t = text::trim_chars(cs.as_slice());
            if t.len() == 0 {
                None
            } else {
                Some(s.clone())
            }
        },
        None => None,
    }
}

/// Keeps a value that says something, or "".
fn or_empty(v: &Option<String>) -> (r: String)
    ensures
        r@ == said_or_empty(*v),
{
    match non_blank(v) {
        Some(s) => s,
        None => String::new(),
    }
}

// ---------------------------------------------------------------------------
// Uninstall entries
// ---------------------------------------------------------------------------

/// The values of one uninstall key, as read.
#[derive(Clone, Debug)]
pub struct UninstallValues {
    pub display_name: Option<String>,
    pub system_component: Option<u32>,
    /// `ParentKeyName` is there, whatever it holds.
    pub has_parent: bool,
    pub publisher: Option<String>,
    pub display_version: Option<String>,
    pub install_location: Option<String>,
    pub uninstall_string: Option<String>,
    pub quiet_uninstall_string: Option<String>,
    pub display_icon: Option<String>,
}

/// The file that an icon reference names: what stands in quotes, or what stands
/// in front of the last comma.
pub open spec fn icon_file(s: Seq<char>) -> Seq<char> {
    let t = text::trim(s);
    if t.len() > 0 && t[0] == '"' {
        let rest = t.skip(1);
        rest.take(text::first_index(rest, '"') as int)
    } else {
        text::trim(before_last_comma(t))
    }
}

/// What stands in front of the last comma, or everything.
pub open spec fn before_last_comma(s: Seq<char>) -> Seq<char> {
    match last_comma(s) {
        Some(i) => s.take(i),
        None => s,
    }
}

/// Index of the last comma.
pub open spec fn last_comma(s: Seq<char>) -> Option<int>
    decreases s.len(),
{
    if s.len() == 0 {
        None
    } else if s.last() == ',' {
        Some(s.len() - 1)
    } else {
        last_comma(s.drop_last())
    }
}

/// The file that an icon reference names.
pub fn parse_display_icon(value: &str) -> (r: String)
    ensures
        r@ == icon_file(value@),
{
    let cs = text::chars_of(value);
    let t = text::trim_chars(cs.as_slice());
    if t.len() > 0 && t[0] == '"' {
        let rest = text::slice_chars(t.as_slice(), 1, t.len());
        assert(rest@ =~= t@.skip(1));
        let mut p: usize = 0;
        assert(rest@.skip(0) =~= rest@);
        while p < rest.len() && rest[p] != '"'
            invariant
                p <= rest.len(),
                text::first_index(rest@, '"') == p + text::first_index(rest@.skip(p as int), '"'),
            decreases rest.len() - p,
        {
            assert(rest@.skip(p as int).drop_first() =~= rest@.skip(p + 1));
            p += 1;
        }
        assert(text::first_index(rest@, '"') == p);
        let out = text::slice_chars(rest.as_slice(), 0, p);
        assert(out@ =~= rest@.take(p as int));
        return text::string_of(out.as_slice());
    }
    let mut to: usize = t.len();
    assert(t@.take(to as int) =~= t@);
    while to > 0 && t[to - 1] != ','
        invariant
            to <= t.len(),
            last_comma(t@) == last_comma(t@.take(to as int)),
        decreases to,
    {
        assert(t@.take(to as int).drop_last() =~= t@.take(to - 1));
        to -= 1;
    }
    let end: usize = if to > 0 {
        to - 1
    } else {
        t.len()
    };
    let head = text::slice_chars(t.as_slice(), 0, end);
    assert(head@ =~= before_last_comma(t@)) by {
        if to > 0 {
            assert(t@.take(to as int).last() == ',');
            assert(last_comma(t@) == Some(to - 1));
            assert(head@ =~= t@.take(to - 1));
        } else {
            assert(last_comma(t@.take(0)) is None);
            assert(head@ =~= t@);
        }
    }
    let out = text::trim_chars(head.as_slice());
    text::string_of(out.as_slice())
}

impl UninstallValues {
    /// The entry is listed: it has a name, is no part of the system and belongs
    /// to no other entry.
    pub open spec fn is_listed(&self) -> bool {
        said(self.display_name) is Some && self.system_component != Some(1u32) && !self.has_parent
    }
}

/// The entry that a key describes.
pub open spec fn entry_of(
    app: RawRegistryApp,
    hive: Hive,
    sub: Seq<char>,
    key: Seq<char>,
    v: UninstallValues,
) -> bool {
    &&& app.id@ == hive_text(hive) + r"\"@ + sub + r"\"@ + key
    &&& Some(app.name@) == said(v.display_name)
    &&& app.publisher@ == said_or_empty(v.publisher)
    &&& app.version@ == said_or_empty(v.display_version)
    &&& app.install_location@ == said_or_empty(v.install_location)
    &&& app.uninstall_string@ == said_or_empty(v.uninstall_string)
    &&& app.quiet_uninstall_string@ == said_or_empty(v.quiet_uninstall_string)
    &&& app.display_icon@ == (match said(v.display_icon) {
        Some(s) => icon_file(s),
        None => Seq::empty(),
    })
}

/// Turns one uninstall key into an entry; `None` where it is not listed.
pub fn read_uninstall_entry(hive: Hive, sub: &str, key: &str, v: &UninstallValues) -> (r: Option<
    RawRegistryApp,
>)
    ensures
        r is Some <==> v.is_listed(),
        r matches Some(app) ==> entry_of(app, hive, sub@, key@, *v),
{
    let name = match non_blank(&v.display_name) {
        Some(s) => s,
        None => {
            return None;
        },
    };
    match v.system_component {
        Some(n) => {
            if n == 1 {
                return None;
            }
        },
        None => {},
    }
    if v.has_parent {
        return None;
    }
    let mut id: String = hive_name(hive).to_owned();
    id.append(r"\");
    id.append(sub);
    id.append(r"\");
    id.append(key);
    let display_icon = match non_blank(&v.display_icon) {
        Some(s) => parse_display_icon(s.as_str()),
        None => String::new(),
    };
    Some(
        RawRegistryApp {
            id,
            name,
            publisher: or_empty(&v.publisher),
            version: or_empty(&v.display_version),
            install_location: or_empty(&v.install_location),
            uninstall_string: or_empty(&v.uninstall_string),
            quiet_uninstall_string: or_empty(&v.quiet_uninstall_string),
            display_icon,
        },
    )
}

/// One uninstall key: where it stands and what it holds.
#[derive(Clone, Debug)]
pub struct UninstallKey {
    pub hive: Hive,
    pub sub: String,
    pub name: String,
    pub values: UninstallValues,
}

/// Whether a key is listed.
pub open spec fn key_listed() -> spec_fn(UninstallKey) -> bool {
    |k: UninstallKey| k.values.is_listed()
}

/// The entries describe the keys, one for one.
pub open spec fn entries_of(apps: Seq<RawRegistryApp>, keys: Seq<UninstallKey>) -> bool {
    apps.len() == keys.len() && forall|i: int|
        0 <= i < apps.len() ==> entry_of(
            #[trigger] apps[i],
            keys[i].hive,
            keys[i].sub@,
            keys[i].name@,
            keys[i].values,
        )
}

/// The listed entries of all uninstall keys, in the order of the keys.
pub fn registry_uninstall_entries(keys: &[UninstallKey]) -> (r: Vec<RawRegistryApp>)
    ensures
        entries_of(r@, keys@.filter(key_listed())),
{
    let mut out: Vec<RawRegistryApp> = Vec::new();
    let mut i: usize = 0;
    proof {
        crate::seqs::filter_nothing(key_listed());
        assert(keys@.take(0) =~= Seq::empty());
    }
    while i < keys.len()
        invariant
            i <= keys.len(),
            entries_of(out@, keys@.take(i as int).filter(key_listed())),
        decreases keys.len() - i,
    {
        proof {
            crate::seqs::filter_step(keys@, i as int, key_listed());
        }
        let k = &keys[i];
        match read_uninstall_entry(k.hive, k.sub.as_str(), k.name.as_str(), &k.values) {
            Some(app) => {
                out.push(app);
            },
            None => {},
        }
        i += 1;
    }
    assert(keys@.take(i as int) =~= keys@);
    out
}

// ---------------------------------------------------------------------------
// Store packages
// ---------------------------------------------------------------------------

/// What the package manager says about one package.
#[derive(Clone, Debug)]
pub struct PackageFacts {
    pub full_name: String,
    /// `None` where it would not say.
    pub framework: Option<bool>,
    pub resource: bool,
    pub publisher: String,
    pub store_signed: bool,
    pub name: String,
    pub version: Option<(u16, u16, u16, u16)>,
    pub install_location: String,
    pub family_name: String,
}

impl PackageFacts {
    /// The package is offered: it has a full name, is no framework, no resource
    /// package, not signed as part of Windows, and none of the `Microsoft.`
    /// packages of the Store.
    pub open spec fn is_offered(&self) -> bool {
        let publisher = text::lower(self.publisher@);
        &&& self.full_name@.len() > 0
        &&& self.framework == Some(false)
        &&& !self.resource
        &&& !"cn=microsoft windows"@.is_prefix_of(publisher)
        &&& !(self.store_signed && "cn=microsoft corporation"@.is_prefix_of(publisher)
            && "Microsoft."@.is_prefix_of(self.name@))
    }
}

/// A version of four parts.
pub open spec fn version_text(v: Option<(u16, u16, u16, u16)>) -> Seq<char> {
    match v {
        Some((a, b, c, d)) => text::decimal(a as nat) + "."@ + text::decimal(b as nat) + "."@
            + text::decimal(c as nat) + "."@ + text::decimal(d as nat),
        None => Seq::empty(),
    }
}

fn version_string(v: Option<(u16, u16, u16, u16)>) -> (r: String)
    ensures
        r@ == version_text(v),
{
    match v {
        Some((a, b, c, d)) => {
            let mut out = text::decimal_string(a as u64);
            out.append(".");
            let tb = text::decimal_string(b as u64);
            out.append(tb.as_str());
            out.append(".");
            let tc = text::decimal_string(c as u64);
            out.append(tc.as_str());
            out.append(".");
            let td = text::decimal_string(d as u64);
            out.append(td.as_str());
            out
        },
        None => String::new(),
    }
}

/// The entry of a package.
pub open spec fn package_of(m: RawMsixApp, p: PackageFacts) -> bool {
    &&& m.id@ == p.full_name@
    &&& m.name@ == p.name@
    &&& m.publisher@ == p.publisher@
    &&& m.version@ == version_text(p.version)
    &&& m.install_location@ == p.install_location@
    &&& m.family_name@ == p.family_name@
}

fn starts_with(s: &[char], head: &str) -> (r: bool)
    ensures
        r == head@.is_prefix_of(s@),
{
    let h = text::chars_of(head);
    text::begins_with(s, h.as_slice())
}

/// Turns a package into an entry; `None` where it is not offered.
pub fn msix_app(p: &PackageFacts) -> (r: Option<RawMsixApp>)
    ensures
        r is Some <==> p.is_offered(),
        r matches Some(m) ==> package_of(m, *p),
{
    let full = text::chars_of(p.full_name.as_str());
    if full.len() == 0 {
        return None;
    }
    match p.framework {
        None => {
            return None;
        },
        Some(f) => {
            if f {
                return None;
            }
        },
    }
    if p.resource {
        return None;
    }
    let publisher = text::chars_of(p.publisher.as_str());
    let publisher = text::to_lower(publisher.as_slice());
    if starts_with(publisher.as_slice(), "cn=microsoft windows") {
        return None;
    }
    let name = text::chars_of(p.name.as_str());
    if p.store_signed && starts_with(publisher.as_slice(), "cn=microsoft corporation")
        && starts_with(name.as_slice(), "Microsoft.") {
        return None;
    }
    Some(
        RawMsixApp {
            id: p.full_name.clone(),
            name: p.name.clone(),
            publisher: p.publisher.clone(),
            version: version_string(p.version),
            install_location: p.install_location.clone(),
            family_name: p.family_name.clone(),
        },
    )
}

/// Whether a package is offered.
pub open spec fn package_offered() -> spec_fn(PackageFacts) -> bool {
    |p: PackageFacts| p.is_offered()
}

/// The entries describe the packages, one for one.
pub open spec fn packages_of(apps: Seq<RawMsixApp>, packages: Seq<PackageFacts>) -> bool {
    apps.len() == packages.len() && forall|i: int|
        0 <= i < apps.len() ==> package_of(#[trigger] apps[i], packages[i])
}

/// The offered packages, in order.
pub fn msix_packages(packages: &[PackageFacts]) -> (r: Vec<RawMsixApp>)
    ensures
        packages_of(r@, packages@.filter(package_offered())),
{
    let mut out: Vec<RawMsixApp> = Vec::new();
    let mut i: usize = 0;
    proof {
        crate::seqs::filter_nothing(package_offered());
        assert(packages@.take(0) =~= Seq::empty());
    }
    while i < packages.len()
        invariant
            i <= packages.len(),
            packages_of(out@, packages@.take(i as int).filter(package_offered())),
        decreases packages.len() - i,
    {
        proof {
            crate::seqs::filter_step(packages@, i as int, package_offered());
        }
        match msix_app(&packages[i]) {
            Some(m) => {
                out.push(m);
            },
            None => {},
        }
        i += 1;
    }
    assert(packages@.take(i as int) =~= packages@);
    out
}

/// How far the removal of a package has come.
#[derive(Clone, Debug)]
pub enum RemovalStatus {
    Completed,
    Started,
    /// Any other state, by name.
    Other(String),
}

/// What to do about a removal.
#[derive(Clone, Debug)]
pub enum RemovalStep {
    /// Ask for the result.
    Collect,
    /// Look again after a pause.
    Wait,
    Fail(String),
}

/// Decides what to do about a removal.
pub fn msix_removal_step(status: &RemovalStatus) -> (r: RemovalStep)
    ensures
        status is Completed <==> r is Collect,
        status is Started <==> r is Wait,
        *status matches RemovalStatus::Other(s) ==> r matches RemovalStep::Fail(t) && t@
            == "package removal failed (status "@ + s@ + ")"@,
{
    match status {
        RemovalStatus::Completed => RemovalStep::Collect,
        RemovalStatus::Started => RemovalStep::Wait,
        RemovalStatus::Other(s) => RemovalStep::Fail(
            text::join3("package removal failed (status ", s.as_str(), ")"),
        ),
    }
}

// ---------------------------------------------------------------------------
// When programs last ran
// ---------------------------------------------------------------------------

/// A letter thirteen places on in its alphabet; other characters stay.
pub open spec fn rotated(c: char) -> char {
    if ('A' <= c && c <= 'M') || ('a' <= c && c <= 'm') {
        (c as u32 + 13) as char
    } else if ('N' <= c && c <= 'Z') || ('n' <= c && c <= 'z') {
        (c as u32 - 13) as char
    } else {
        c
    }
}

/// A text with each letter thirteen places on.
pub open spec fn rotated_text(s: Seq<char>) -> Seq<char> {
    s.map_values(|c: char| rotated(c))
}

/// Decodes the name of a usage record.
pub fn rot13(s: &str) -> (r: String)
    ensures
        r@ == rotated_text(s@),
{
    let cs = text::chars_of(s);
    let mut out: Vec<char> = Vec::new();
    let mut i: usize = 0;
    while i < cs.len()
        invariant
            i <= cs.len(),
            out@ == rotated_text(cs@.take(i as int)),
        decreases cs.len() - i,
    {
        let c: char = cs[i];
        let d: char = if ('A' <= c && c <= 'M') || ('a' <= c && c <= 'm') {
            ((c as u8) + 13) as char
        } else if ('N' <= c && c <= 'Z') || ('n' <= c && c <= 'z') {
            ((c as u8) - 13) as char
        } else {
            c
        };
        assert(d == rotated(c));
        out.push(d);
        assert(out@ =~= rotated_text(cs@.take(i + 1)));
        i += 1;
    }
    assert(cs@.take(i as int) =~= cs@);
    text::string_of(out.as_slice())
}

/// Decoding twice gives the first text back.
pub proof fn decoding_twice_changes_nothing(s: Seq<char>)
    ensures
        rotated_text(rotated_text(s)) == s,
{
    assert(rotated_text(rotated_text(s)) =~= s);
}

/// When a usage record says that its program last ran.
pub open spec fn last_run(data: Seq<u8>) -> Option<int> {
    if data.len() < 68 || bytes::le(data, 60, 8) == 0 {
        None
    } else {
        Some(win::unix_seconds(bytes::le(data, 60, 8) as u64))
    }
}

/// The time at byte 60 of a usage record, as Unix seconds; `None` where the
/// record is too short or holds no time.
pub fn userassist_last_run(data: &[u8]) -> (r: Option<i64>)
    ensures
        (match r {
            Some(t) => Some(t as int),
            None => None,
        }) == last_run(data@),
{
    if data.len() < 68 {
        return None;
    }
    let ft = bytes::u64_at(data, 60);
    if ft == 0 {
        None
    } else {
        Some(win::filetime_to_unix(ft))
    }
}

/// The GUID that a path begins with, in braces: the text between them.
pub open spec fn guid_prefix(s: Seq<char>) -> Option<Seq<char>> {
    if s.len() > 0 && s[0] == '{' && text::first_index(s, '}') < s.len() {
        Some(s.subrange(1, text::first_index(s, '}') as int))
    } else {
        None
    }
}

/// The folder id that a path begins with.
pub fn folder_id(decoded: &str) -> (r: Option<String>)
    ensures
        crate::scan::text_of(r) == guid_prefix(decoded@),
{
    let cs = text::chars_of(decoded);
    match closing_brace(cs.as_slice()) {
        Some(p) => {
            let id = text::slice_chars(cs.as_slice(), 1, p);
            Some(text::string_of(id.as_slice()))
        },
        None => None,
    }
}

/// Where the closing brace of a leading `{...}` stands.
fn closing_brace(cs: &[char]) -> (r: Option<usize>)
    ensures
        r is Some <==> guid_prefix(cs@) is Some,
        r matches Some(p) ==> 1 <= p < cs@.len() && p == text::first_index(cs@, '}'),
{
    if cs.len() == 0 || cs[0] != '{' {
        return None;
    }
    let mut p: usize = 0;
    assert(cs@.skip(0) =~= cs@);
    while p < cs.len() && cs[p] != '}'
        invariant
            p <= cs.len(),
            text::first_index(cs@, '}') == p + text::first_index(cs@.skip(p as int), '}'),
        decreases cs.len() - p,
    {
        assert(cs@.skip(p as int).drop_first() =~= cs@.skip(p + 1));
        p += 1;
    }
    assert(text::first_index(cs@, '}') == p);
    if p < cs.len() {
        Some(p)
    } else {
        None
    }
}

/// The path with the leading folder id replaced by the folder. A path without an
/// id and an id that leads nowhere leave it as it is; an id that leads to a folder
/// but that no separator follows names nothing.
pub open spec fn unfolded(s: Seq<char>, folder: Option<Seq<char>>) -> Option<Seq<char>> {
    let p = text::first_index(s, '}') as int;
    if guid_prefix(s) is None || folder is None {
        Some(s)
    } else if p + 1 >= s.len() || (s[p + 1] != '\\' && s[p + 1] != '/') {
        None
    } else if p + 2 == s.len() {
        folder
    } else {
        Some(folder->0 + r"\"@ + s.skip(p + 2))
    }
}

/// Replaces a leading folder id by the folder it stands for, where the system
/// knows it.
pub fn resolve_known_folder_prefix(decoded: &str, folder: &Option<String>) -> (r: Option<String>)
    ensures
        crate::scan::text_of(r) == unfolded(decoded@, crate::scan::text_of(*folder)),
{
    let cs = text::chars_of(decoded);
    let p: usize = match closing_brace(cs.as_slice()) {
        Some(p) => p,
        None => {
            return Some(decoded.to_owned());
        },
    };
    match folder {
        None => Some(decoded.to_owned()),
        Some(base) => {
            if cs.len() - p < 2 || (cs[p + 1] != '\\' && cs[p + 1] != '/') {
                return None;
            }
            if cs.len() - p == 2 {
                return Some(base.clone());
            }
            let tail = text::slice_chars(cs.as_slice(), p + 2, cs.len());
            assert(tail@ =~= cs@.skip(p + 2));
            let tail = text::string_of(tail.as_slice());
            Some(text::join3(base.as_str(), r"\", tail.as_str()))
        },
    }
}

/// One usage record: its decoded name, the folder its id stands for, and its
/// data.
#[derive(Clone, Debug)]
pub struct UsageRecord {
    pub decoded: String,
    pub folder: Option<String>,
    pub data: Vec<u8>,
}

/// Programs and when they last ran: records without a time are left out, and
/// those whose folder id names nothing.
pub open spec fn usage(records: Seq<UsageRecord>) -> Seq<(Seq<char>, int)>
    decreases records.len(),
{
    if records.len() == 0 {
        Seq::empty()
    } else {
        let rest = usage(records.drop_last());
        let rec = records.last();
        match (unfolded(rec.decoded@, crate::scan::text_of(rec.folder)), last_run(rec.data@)) {
            (Some(path), Some(t)) => rest.push((path, t)),
            _ => rest,
        }
    }
}

/// Pairs of path and time as plain values.
pub open spec fn timed(v: Seq<(String, i64)>) -> Seq<(Seq<char>, int)> {
    v.map_values(|p: (String, i64)| (p.0@, p.1 as int))
}

/// Programs and when they last ran, in the order of the records.
pub fn userassist_entries(records: &[UsageRecord]) -> (r: Vec<(String, i64)>)
    ensures
        timed(r@) == usage(records@),
{
    let mut out: Vec<(String, i64)> = Vec::new();
    let mut i: usize = 0;
    assert(timed(out@) =~= usage(records@.take(0)));
    while i < records.len()
        invariant
            i <= records.len(),
            timed(out@) == usage(records@.take(i as int)),
        decreases records.len() - i,
    {
        let rec = &records[i];
        let ghost before = timed(out@);
        assert(records@.take(i + 1).drop_last() =~= records@.take(i as int));
        if let Some(path) = resolve_known_folder_prefix(rec.decoded.as_str(), &rec.folder) {
            if let Some(t) = userassist_last_run(rec.data.as_slice()) {
                let ghost named = path@;
                out.push((path, t));
                assert(timed(out@) =~= before.push((named, t as int)));
            }
        }
        i += 1;
    }
    assert(records@.take(i as int) =~= records@);
    out
}

// ---------------------------------------------------------------------------
// Laws
// ---------------------------------------------------------------------------

/// A hive goes by its short name.
pub proof fn hives_have_their_names(h: Hive, r: &'static str)
    requires
        call_ensures(hive_name, (h,), r),
    ensures
        h == Hive::LocalMachine ==> r@ == "HKLM"@,
        h == Hive::CurrentUser ==> r@ == "HKCU"@,
        h == Hive::Other ==> r@ == "HK?"@,
{
}

/// Where the first NUL stands.
proof fn nul_is_first(u: Seq<u16>, i: int)
    requires
        0 <= i <= u.len(),
    ensures
        i <= nul_from(u, i) <= u.len(),
        nul_from(u, i) < u.len() ==> u[nul_from(u, i)] == 0,
        forall|k: int| i <= k < nul_from(u, i) ==> #[trigger] u[k] != 0,
    decreases u.len() - i,
{
    if i < u.len() && u[i] != 0 {
        nul_is_first(u, i + 1);
    }
}

/// A string value is what stands in front of its first NUL, and all of it where
/// there is none. Two values that agree up to there read the same.
pub proof fn a_value_ends_at_its_nul(raw: &[u16], r: String, n: int)
    requires
        call_ensures(reg_text, (raw,), r),
        0 <= n <= raw@.len(),
        n < raw@.len() ==> raw@[n] == 0,
        forall|i: int| 0 <= i < n ==> #[trigger] raw@[i] != 0,
    ensures
        r@ == text::lossy(raw@.take(n)),
{
    nul_is_first(raw@, 0);
    let m = nul_from(raw@, 0);
    if m < n {
        assert(raw@[m] != 0);
    }
    if n < m {
        assert(raw@[n] != 0);
    }
}

/// Plain and expandable strings are read, the machine's id from a plain one
/// alone, and only where there is something to read.
pub proof fn strings_are_read_by_type(
    kind: u32,
    len: u32,
    raw: &[u16],
    r: Option<String>,
    m: Option<String>,
    t: String,
)
    requires
        call_ensures(reg_query_string, (kind, len, raw), r),
        call_ensures(machine_guid, (kind, len, raw), m),
        call_ensures(reg_text, (raw,), t),
    ensures
        r is Some <==> len > 0 && (kind == 1 || kind == 2),
        m is Some <==> len > 0 && kind == 1,
        r matches Some(s) ==> s@ == t@,
        m matches Some(s) ==> s@ == t@,
{
}

/// A number is read from four bytes of type four, least significant first.
pub proof fn numbers_are_read_by_type(kind: u32, data: &[u8], r: Option<u32>)
    requires
        call_ensures(reg_query_dword, (kind, data), r),
    ensures
        r is Some <==> kind == 4 && data@.len() == 4,
        r matches Some(n) ==> n == data@[0] + 256 * data@[1] + 65536 * data@[2] + 16777216
            * data@[3],
{
    reveal_with_fuel(bytes::le, 5);
}

/// Where the last comma stands.
proof fn comma_is_last(s: Seq<char>)
    ensures
        last_comma(s) is None ==> !s.contains(','),
        last_comma(s) matches Some(i) ==> 0 <= i < s.len() && s[i] == ',' && forall|k: int|
            i < k < s.len() ==> #[trigger] s[k] != ',',
    decreases s.len(),
{
    if s.len() > 0 && s.last() != ',' {
        let less = s.drop_last();
        comma_is_last(less);
        if s.contains(',') {
            let k = choose|k: int| 0 <= k < s.len() && s[k] == ',';
            assert(less[k] == ',');
        }
        if let Some(i) = last_comma(less) {
            assert forall|k: int| i < k < s.len() implies #[trigger] s[k] != ',' by {
                if k < s.len() - 1 {
                    assert(less[k] == s[k]);
                }
            }
        }
    }
}

/// What an icon reference names: the text between the first two quotes where it
/// begins with one; else what stands in front of the last comma, without white
/// space around it.
pub proof fn an_icon_reference_names_its_file(value: &str, r: String)
    requires
        call_ensures(parse_display_icon, (value,), r),
    ensures
        ({
            let t = text::trim(value@);
            &&& t.len() > 0 && t[0] == '"' ==> {
                let n = r@.len() as int;
                &&& n + 1 <= t.len()
                &&& r@ == t.subrange(1, n + 1)
                &&& !r@.contains('"')
                &&& n + 1 < t.len() ==> t[n + 1] == '"'
            }
            &&& !(t.len() > 0 && t[0] == '"') && !t.contains(',') ==> r@ == text::trim(t)
            &&& forall|i: int|
                #![trigger t[i]]
                !(t[0] == '"') && 0 <= i < t.len() && t[i] == ',' && (forall|k: int|
                    i < k < t.len() ==> #[trigger] t[k] != ',') ==> r@ == text::trim(t.take(i))
        }),
{
    let t = text::trim(value@);
    comma_is_last(t);
    if t.len() > 0 && t[0] == '"' {
        let rest = t.skip(1);
        text::first_index_bound(rest, '"');
        let n = text::first_index(rest, '"') as int;
        assert(rest.take(n) =~= t.subrange(1, n + 1));
    } else if let Some(c) = last_comma(t) {
        assert(t[c] == ',');
        assert forall|i: int|
            #![trigger t[i]]
            0 <= i < t.len() && t[i] == ',' && (forall|k: int|
                i < k < t.len() ==> #[trigger] t[k] != ',') implies r@ == text::trim(t.take(i)) by {
            if i < c {
                assert(t[c] != ',');
            }
            if c < i {
                assert(t[i] != ',');
            }
        }
    }
}

/// A key is an entry where it has a name that says something, is no system
/// component and belongs to no other key. The entry carries the values that say
/// something, and nothing for the others.
pub proof fn an_entry_carries_its_values(
    hive: Hive,
    sub: &str,
    key: &str,
    v: &UninstallValues,
    r: Option<RawRegistryApp>,
    h: &'static str,
    icon: &str,
    file: String,
)
    requires
        call_ensures(read_uninstall_entry, (hive, sub, key, v), r),
        call_ensures(hive_name, (hive,), h),
        call_ensures(parse_display_icon, (icon,), file),
    ensures
        r is Some <==> (v.display_name matches Some(n) && text::trim(n@).len() > 0) && !(
        v.system_component matches Some(c) && c == 1) && !v.has_parent,
        r matches Some(app) ==> {
            &&& app.id@ == h@ + r"\"@ + sub@ + r"\"@ + key@
            &&& app.name@ == v.display_name->0@
            &&& carries(app.publisher@, v.publisher)
            &&& carries(app.version@, v.display_version)
            &&& carries(app.install_location@, v.install_location)
            &&& carries(app.uninstall_string@, v.uninstall_string)
            &&& carries(app.quiet_uninstall_string@, v.quiet_uninstall_string)
            &&& v.display_icon is None ==> app.display_icon@.len() == 0
            &&& v.display_icon matches Some(s) ==> text::trim(s@).len() == 0
                ==> app.display_icon@.len() == 0
            &&& v.display_icon matches Some(s) ==> text::trim(s@).len() > 0 && s@ == icon@
                ==> app.display_icon@ == file@
        },
{
}

/// A text carries a value: the value itself where it says something, nothing
/// otherwise.
pub open spec fn carries(t: Seq<char>, v: Option<String>) -> bool {
    match v {
        Some(s) => if text::trim(s@).len() > 0 {
            t == s@
        } else {
            t.len() == 0
        },
        None => t.len() == 0,
    }
}

/// The entries stand for the listed keys, in order.
pub proof fn listed_keys_become_entries(keys: &[UninstallKey], r: Vec<RawRegistryApp>) -> (at: Seq<
    int,
>)
    requires
        call_ensures(registry_uninstall_entries, (keys,), r),
    ensures
        at.len() == r@.len(),
        forall|a: int, b: int| 0 <= a < b < at.len() ==> #[trigger] at[a] < #[trigger] at[b],
        forall|k: int|
            #![trigger at[k]]
            0 <= k < at.len() ==> {
                &&& 0 <= at[k] < keys@.len()
                &&& r@[k].name@ == keys@[at[k]].values.display_name->0@
                &&& carries(r@[k].publisher@, keys@[at[k]].values.publisher)
                &&& carries(r@[k].uninstall_string@, keys@[at[k]].values.uninstall_string)
            },
        forall|i: int|
            0 <= i < keys@.len() ==> (at.contains(i) <==> ((
            #[trigger] keys@[i]).values.display_name matches Some(n) && text::trim(n@).len() > 0)
                && !(keys@[i].values.system_component matches Some(c) && c == 1)
                && !keys@[i].values.has_parent),
{
    let at = crate::seqs::filter_places(keys@, key_listed());
    assert forall|k: int| #![trigger at[k]] 0 <= k < at.len() implies entry_of(
        r@[k],
        keys@[at[k]].hive,
        keys@[at[k]].sub@,
        keys@[at[k]].name@,
        keys@[at[k]].values,
    ) by {
        assert(keys@.filter(key_listed())[k] == keys@[at[k]]);
    }
    at
}

/// A package is offered where it has a full name, is known to be no framework,
/// is no resource package, and neither Windows signed it nor Microsoft one of its
/// own names in the Store. The entry carries what the package manager says.
pub proof fn an_offered_package_carries_its_facts(p: &PackageFacts, r: Option<RawMsixApp>)
    requires
        call_ensures(msix_app, (p,), r),
    ensures
        r is Some <==> {
            &&& p.full_name@.len() > 0
            &&& p.framework matches Some(f) && !f
            &&& !p.resource
            &&& !"cn=microsoft windows"@.is_prefix_of(text::lower(p.publisher@))
            &&& !p.store_signed || !"cn=microsoft corporation"@.is_prefix_of(
                text::lower(p.publisher@),
            ) || !"Microsoft."@.is_prefix_of(p.name@)
        },
        r matches Some(m) ==> {
            &&& m.id@ == p.full_name@
            &&& m.name@ == p.name@
            &&& m.publisher@ == p.publisher@
            &&& m.install_location@ == p.install_location@
            &&& m.family_name@ == p.family_name@
            &&& p.version is None ==> m.version@.len() == 0
            &&& p.version matches Some((a, b, c, d)) ==> m.version@ == text::decimal(a as nat)
                + "."@ + text::decimal(b as nat) + "."@ + text::decimal(c as nat) + "."@
                + text::decimal(d as nat)
        },
{
}

/// The entries stand for the offered packages, in order.
pub proof fn offered_packages_become_entries(
    packages: &[PackageFacts],
    r: Vec<RawMsixApp>,
    one: int,
    e: Option<RawMsixApp>,
) -> (at: Seq<int>)
    requires
        call_ensures(msix_packages, (packages,), r),
        0 <= one < packages@.len(),
        call_ensures(msix_app, (&packages@[one],), e),
    ensures
        at.len() == r@.len(),
        forall|a: int, b: int| 0 <= a < b < at.len() ==> #[trigger] at[a] < #[trigger] at[b],
        forall|k: int|
            #![trigger at[k]]
            0 <= k < at.len() ==> 0 <= at[k] < packages@.len() && r@[k].id@
                == packages@[at[k]].full_name@ && r@[k].name@ == packages@[at[k]].name@
                && r@[k].family_name@ == packages@[at[k]].family_name@,
        at.contains(one) <==> e is Some,
{
    let at = crate::seqs::filter_places(packages@, package_offered());
    assert forall|k: int| #![trigger at[k]] 0 <= k < at.len() implies package_of(
        r@[k],
        packages@[at[k]],
    ) by {
        assert(packages@.filter(package_offered())[k] == packages@[at[k]]);
    }
    assert(package_offered()(packages@[one]) <==> e is Some);
    at
}

/// A removal is waited for while it runs, collected once complete, and any other
/// state is its failure.
pub proof fn a_removal_runs_until_it_ends(status: &RemovalStatus, r: RemovalStep)
    requires
        call_ensures(msix_removal_step, (status,), r),
    ensures
        *status is Completed ==> r is Collect,
        *status is Started ==> r is Wait,
        *status matches RemovalStatus::Other(s) ==> r matches RemovalStep::Fail(t) && t@
            == "package removal failed (status "@ + s@ + ")"@,
{
}

/// Decoding moves a letter thirteen places within its half of the alphabet and
/// case, and leaves everything else.
pub proof fn decoding_moves_letters_by_thirteen(s: &str, r: String)
    requires
        call_ensures(rot13, (s,), r),
    ensures
        r@.len() == s@.len(),
        forall|i: int|
            #![trigger r@[i]]
            0 <= i < s@.len() ==> {
                let c = s@[i] as int;
                let d = r@[i] as int;
                &&& 65 <= c <= 77 || 97 <= c <= 109 ==> d == c + 13
                &&& 78 <= c <= 90 || 110 <= c <= 122 ==> d == c - 13
                &&& c < 65 || 90 < c < 97 || c > 122 ==> d == c
            },
{
    assert forall|i: int| #![trigger r@[i]] 0 <= i < s@.len() implies r@[i] == rotated(s@[i]) by {
        assert(rotated_text(s@)[i] == rotated(s@[i]));
    }
}

/// A usage record says when its program ran where it is long enough and its time
/// is not zero: the time at byte 60, counted in whole seconds from 1970 on.
pub proof fn a_usage_record_holds_its_time(data: &[u8], r: Option<i64>)
    requires
        call_ensures(userassist_last_run, (data,), r),
    ensures
        r is Some <==> data@.len() >= 68 && exists|i: int|
            60 <= i < 68 && #[trigger] data@[i] != 0,
        r matches Some(t) ==> t == bytes::le(data@, 60, 8) as int / 10_000_000 - 11_644_473_600,
{
    reveal_with_fuel(bytes::le, 9);
    if data@.len() >= 68 {
        if bytes::le(data@, 60, 8) != 0 {
            assert(exists|i: int| 60 <= i < 68 && #[trigger] data@[i] != 0) by {
                if data@[60] == 0 && data@[61] == 0 && data@[62] == 0 && data@[63] == 0 && data@[64]
                    == 0 && data@[65] == 0 && data@[66] == 0 && data@[67] == 0 {
                    assert(false);
                }
            }
        }
    }
}

/// A folder id is what stands between a leading brace and the first closing one.
pub proof fn a_folder_id_stands_in_braces(s: &str, r: Option<String>)
    requires
        call_ensures(folder_id, (s,), r),
    ensures
        r is Some <==> s@.len() > 0 && s@[0] == '{' && s@.contains('}'),
        r matches Some(t) ==> t@.len() + 2 <= s@.len() && t@ == s@.subrange(
            1,
            t@.len() as int + 1,
        ) && s@[t@.len() as int + 1] == '}' && !t@.contains('}'),
{
    text::first_index_bound(s@, '}');
    let p = text::first_index(s@, '}') as int;
    if p < s@.len() {
        assert(s@[p] == '}');
    }
    if s@.len() > 0 && s@[0] == '{' && s@.contains('}') {
        let k = choose|k: int| 0 <= k < s@.len() && s@[k] == '}';
        assert(p < s@.len());
        let t = s@.subrange(1, p);
        assert forall|i: int| 0 <= i < t.len() implies t[i] != '}' by {
            assert(t[i] == s@[i + 1]);
        }
    }
}

/// Where an id leads to a folder, the folder takes its place: the rest of the
/// path stays behind one backslash. Any other path stays as it is.
pub proof fn a_known_folder_takes_the_place_of_its_id(
    s: &str,
    folder: &Option<String>,
    id: Option<String>,
    r: Option<String>,
)
    requires
        call_ensures(folder_id, (s,), id),
        call_ensures(resolve_known_folder_prefix, (s, folder), r),
    ensures
        id is None || folder is None ==> (r matches Some(t) && t@ == s@),
        id is Some && *folder is Some ==> {
            let p = id->0@.len() + 2;
            &&& r is Some <==> p < s@.len() && (s@[p as int] == '\\' || s@[p as int] == '/')
            &&& r matches Some(t) ==> p + 1 == s@.len() ==> t@ == folder->0@
            &&& r matches Some(t) ==> p + 1 < s@.len() ==> t@ == folder->0@ + r"\"@ + s@.skip(
                p as int + 1,
            )
        },
{
    text::first_index_bound(s@, '}');
}

/// Where the usage records stand that say something.
proof fn usage_places(records: Seq<UsageRecord>) -> (at: Seq<int>)
    ensures
        at.len() == usage(records).len(),
        forall|a: int, b: int| 0 <= a < b < at.len() ==> #[trigger] at[a] < #[trigger] at[b],
        forall|k: int|
            #![trigger at[k]]
            0 <= k < at.len() ==> {
                let rec = records[at[k]];
                &&& 0 <= at[k] < records.len()
                &&& unfolded(rec.decoded@, crate::scan::text_of(rec.folder)) == Some(
                    usage(records)[k].0,
                )
                &&& last_run(rec.data@) == Some(usage(records)[k].1)
            },
        forall|i: int|
            #![trigger records[i]]
            0 <= i < records.len() ==> (at.contains(i) <==> unfolded(
                records[i].decoded@,
                crate::scan::text_of(records[i].folder),
            ) is Some && last_run(records[i].data@) is Some),
    decreases records.len(),
{
    if records.len() == 0 {
        Seq::empty()
    } else {
        let less = records.drop_last();
        let rest = usage_places(less);
        let n = records.len() - 1;
        let rec = records.last();
        let kept = unfolded(rec.decoded@, crate::scan::text_of(rec.folder)) is Some && last_run(
            rec.data@,
        ) is Some;
        let at = if kept {
            rest.push(n)
        } else {
            rest
        };
        assert forall|i: int| #![trigger records[i]] 0 <= i < records.len() implies (at.contains(i)
            <==> unfolded(records[i].decoded@, crate::scan::text_of(records[i].folder)) is Some
            && last_run(records[i].data@) is Some) by {
            if i < n {
                assert(less[i] == records[i]);
                if rest.contains(i) {
                    let k = choose|k: int| 0 <= k < rest.len() && rest[k] == i;
                    assert(at[k] == i);
                }
                if at.contains(i) {
                    let k = choose|k: int| 0 <= k < at.len() && at[k] == i;
                    assert(k < rest.len());
                    assert(rest[k] == i);
                }
            } else {
                if kept {
                    assert(at[rest.len() as int] == n);
                } else if at.contains(i) {
                    let k = choose|k: int| 0 <= k < at.len() && at[k] == i;
                    assert(rest[k] == n);
                }
            }
        }
        assert forall|k: int| #![trigger at[k]] 0 <= k < at.len() implies ({
            let rec = records[at[k]];
            &&& 0 <= at[k] < records.len()
            &&& unfolded(rec.decoded@, crate::scan::text_of(rec.folder)) == Some(
                usage(records)[k].0,
            )
            &&& last_run(rec.data@) == Some(usage(records)[k].1)
        }) by {
            if k < rest.len() {
                assert(rest[k] == at[k]);
                assert(less[rest[k]] == records[rest[k]]);
            }
        }
        at
    }
}

/// A program is listed for every record whose path is known and which says when
/// it ran, in order.
pub proof fn records_tell_when_programs_ran(
    records: &[UsageRecord],
    r: Vec<(String, i64)>,
    one: int,
    decoded: &str,
    path: Option<String>,
    data: &[u8],
    time: Option<i64>,
) -> (at: Seq<int>)
    requires
        call_ensures(userassist_entries, (records,), r),
        0 <= one < records@.len(),
        decoded@ == records@[one].decoded@,
        call_ensures(resolve_known_folder_prefix, (decoded, &records@[one].folder), path),
        data@ == records@[one].data@,
        call_ensures(userassist_last_run, (data,), time),
    ensures
        at.len() == r@.len(),
        forall|a: int, b: int| 0 <= a < b < at.len() ==> #[trigger] at[a] < #[trigger] at[b],
        at.contains(one) <==> path is Some && time is Some,
        forall|k: int|
            #![trigger at[k]]
            0 <= k < at.len() && at[k] == one ==> r@[k].0@ == path->0@ && r@[k].1 == time->0,
{
    let at = usage_places(records@);
    assert(timed(r@).len() == r@.len());
    assert forall|k: int| #![trigger at[k]] 0 <= k < at.len() && at[k] == one implies r@[k].0@
        == path->0@ && r@[k].1 == time->0 by {
        assert(timed(r@)[k] == (r@[k].0@, r@[k].1 as int));
    }
    at
}

/// Uninstall entries are looked for in three places: both views of the machine's
/// hive and the user's own.
pub proof fn uninstall_entries_stand_in_three_places(r: Vec<(Hive, &'static str)>)
    requires
        call_ensures(uninstall_roots, (), r),
    ensures
        r@.len() == 3,
        r@[0].0 == Hive::LocalMachine && r@[1].0 == Hive::LocalMachine && r@[2].0
            == Hive::CurrentUser,
        r@[0].1@ == r"SOFTWARE\Microsoft\Windows\CurrentVersion\Uninstall"@,
        r@[1].1@ == r"SOFTWARE\WOW6432Node\Microsoft\Windows\CurrentVersion\Uninstall"@,
        r@[2].1@ == r"Software\Microsoft\Windows\CurrentVersion\Uninstall"@,
{
}

} // verus!
