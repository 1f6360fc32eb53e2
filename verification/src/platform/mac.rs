//! macOS: the decisions on what the system calls return.
use vstd::prelude::*;

use crate::bytes;
use crate::platform::win;
use crate::platform::{DirEntryData, ListError};
use crate::text;

verus! {

/// The macOS platform.
#[derive(Clone, Copy, Debug, Default)]
pub struct MacPlatform;

/// Attributes of a bulk request and of the records it returns.
pub const ATTR_CMN_RETURNED_ATTRS: u32 = 0x8000_0000;

pub const ATTR_CMN_ERROR: u32 = 0x2000_0000;

pub const ATTR_CMN_NAME: u32 = 0x0000_0001;

pub const ATTR_CMN_OBJTYPE: u32 = 0x0000_0008;

pub const ATTR_CMN_CRTIME: u32 = 0x0000_0200;

pub const ATTR_CMN_MODTIME: u32 = 0x0000_0400;

pub const ATTR_FILE_TOTALSIZE: u32 = 0x0000_0002;

pub const ATTR_FILE_ALLOCSIZE: u32 = 0x0000_0004;

/// Object types of a record.
pub const VNON: u32 = 0;

pub const VREG: u32 = 1;

pub const VDIR: u32 = 2;

pub const VLNK: u32 = 5;

/// The tag that marks a symbolic link, which is never followed.
pub const LINK_TAG: u32 = 0xA000_0009;

// ---------------------------------------------------------------------------
// Bulk records
// ---------------------------------------------------------------------------

/// `n` where the attribute is there, 0 where it is not.
pub open spec fn if_set(flags: u32, attr: u32, n: int) -> int {
    if flags & attr != 0 {
        n
    } else {
        0
    }
}

/// The common attributes that a record holds.
pub open spec fn common_of(rec: Seq<u8>) -> u32 {
    bytes::le(rec, 4, 4) as u32
}

/// The file attributes that a record holds.
pub open spec fn file_of(rec: Seq<u8>) -> u32 {
    bytes::le(rec, 16, 4) as u32
}

/// Where the name reference stands, behind the header and the error.
pub open spec fn name_at(common: u32) -> int {
    24 + if_set(common, ATTR_CMN_ERROR, 4)
}

/// Where the object type stands.
pub open spec fn type_at(common: u32) -> int {
    name_at(common) + if_set(common, ATTR_CMN_NAME, 8)
}

/// Where the creation time stands.
pub open spec fn created_at(common: u32) -> int {
    type_at(common) + if_set(common, ATTR_CMN_OBJTYPE, 4)
}

/// Where the modification time stands.
pub open spec fn modified_at(common: u32) -> int {
    created_at(common) + if_set(common, ATTR_CMN_CRTIME, 16)
}

/// Where the length stands.
pub open spec fn total_at(common: u32) -> int {
    modified_at(common) + if_set(common, ATTR_CMN_MODTIME, 16)
}

/// Where the allocated size stands.
pub open spec fn alloc_at(common: u32, file: u32) -> int {
    total_at(common) + if_set(file, ATTR_FILE_TOTALSIZE, 8)
}

/// Where the values end.
pub open spec fn values_end(common: u32, file: u32) -> int {
    alloc_at(common, file) + if_set(file, ATTR_FILE_ALLOCSIZE, 8)
}

/// A number of 32 bits with a sign.
pub open spec fn signed32(v: nat) -> int {
    if v <= i32::MAX {
        v as int
    } else {
        v - 0x1_0000_0000
    }
}

/// Where the bytes of the name begin: the reference counts from itself.
pub open spec fn name_start(rec: Seq<u8>) -> int {
    let at = name_at(common_of(rec));
    at + signed32(bytes::le(rec, at, 4))
}

/// Where the bytes of the name end.
pub open spec fn name_end(rec: Seq<u8>) -> int {
    name_start(rec) + bytes::le(rec, name_at(common_of(rec)) + 4, 4)
}

/// The bytes of the name, without a closing NUL.
pub open spec fn name_bytes(rec: Seq<u8>) -> Seq<u8> {
    let b = rec.subrange(name_start(rec), name_end(rec));
    if b.len() > 0 && b.last() == 0 {
        b.drop_last()
    } else {
        b
    }
}

/// The record can be read: its header is whole, the values it says it holds fit,
/// and so does the name, if it has one.
pub open spec fn is_record(rec: Seq<u8>) -> bool {
    &&& rec.len() >= 24
    &&& values_end(common_of(rec), file_of(rec)) <= rec.len()
    &&& common_of(rec) & ATTR_CMN_NAME != 0 ==> 0 <= name_start(rec) && name_end(rec) <= rec.len()
}

/// The entry that a record describes; what it does not hold reads as zero.
pub open spec fn record_entry(rec: Seq<u8>) -> crate::platform::Listed {
    let common = common_of(rec);
    let file = file_of(rec);
    let kind = if common & ATTR_CMN_OBJTYPE != 0 {
        bytes::le(rec, type_at(common), 4)
    } else {
        VNON as nat
    };
    crate::platform::Listed {
        name: if common & ATTR_CMN_NAME != 0 {
            text::utf16(text::utf8_lossy(name_bytes(rec)))
        } else {
            Seq::empty()
        },
        is_dir: kind == VDIR,
        logical: if file & ATTR_FILE_TOTALSIZE != 0 {
            bytes::le(rec, total_at(common), 8)
        } else {
            0
        },
        on_disk: if file & ATTR_FILE_ALLOCSIZE != 0 {
            bytes::le(rec, alloc_at(common, file), 8)
        } else {
            0
        },
        modified: if common & ATTR_CMN_MODTIME != 0 {
            bytes::signed(bytes::le(rec, modified_at(common), 8) as u64)
        } else {
            0
        },
        created: if common & ATTR_CMN_CRTIME != 0 {
            bytes::signed(bytes::le(rec, created_at(common), 8) as u64)
        } else {
            0
        },
        reparse_tag: if kind == VLNK {
            Some(LINK_TAG)
        } else {
            None
        },
        cloud: false,
        file_id: 0,
    }
}

/// The name of a record, which has been found to fit.
fn read_name(rec: &[u8], at: usize) -> (r: Option<Vec<u16>>)
    requires
        rec.len() >= 24,
        at == name_at(common_of(rec@)),
        at + 8 <= rec.len(),
    ensures
        r is Some <==> (0 <= name_start(rec@) && name_end(rec@) <= rec.len()),
        r matches Some(n) ==> n@ == text::utf16(text::utf8_lossy(name_bytes(rec@))) && (
        vstd::utf8::valid_utf8(name_bytes(rec@)) ==> n@ == text::utf16(
            vstd::utf8::decode_utf8(name_bytes(rec@)),
        )),
{
    let raw = bytes::u32_at(rec, at);
    let count = bytes::u32_at(rec, at + 4) as u64;
    let start: i64 = if raw <= 0x7fff_ffff {
        at as i64 + raw as i64
    } else {
        at as i64 + (raw as i64 - 0x1_0000_0000)
    };
    if start < 0 {
        return None;
    }
    let room: u64 = rec.len() as u64;
    if start as u64 > room || count > room - start as u64 {
        return None;
    }
    let from: usize = start as usize;
    let mut to: usize = from + count as usize;
    let ghost whole = rec@.subrange(name_start(rec@), name_end(rec@));
    if to > from && rec[to - 1] == 0 {
        to = to - 1;
        assert(whole.last() == 0);
        assert(whole.drop_last() =~= rec@.subrange(from as int, to as int));
    }
    let mut b: Vec<u8> = Vec::new();
    let mut i: usize = from;
    while i < to
        invariant
            from <= i <= to <= rec.len(),
            b@ == rec@.subrange(from as int, i as int),
        decreases to - i,
    {
        b.push(rec[i]);
        i += 1;
    }
    assert(b@ =~= name_bytes(rec@));
    let name = text::utf8_lossy_string(b.as_slice());
    Some(text::units_of(name.as_str()))
}

/// Reads one packed record.
///
/// A name that is valid UTF-8 is kept exactly.
pub fn parse_bulk_record(rec: &[u8]) -> (r: Option<DirEntryData>)
    ensures
        r is Some <==> is_record(rec@),
        r matches Some(e) ==> e.listed() == record_entry(rec@),
        r matches Some(e) ==> common_of(rec@) & ATTR_CMN_NAME != 0 && vstd::utf8::valid_utf8(
            name_bytes(rec@),
        ) ==> e.name@ == text::utf16(vstd::utf8::decode_utf8(name_bytes(rec@))),
{
    let n = rec.len();
    if n < 24 {
        return None;
    }
    let common = bytes::u32_at(rec, 4);
    let file = bytes::u32_at(rec, 16);
    let mut o: usize = 24;
    if common & ATTR_CMN_ERROR != 0 {
        if n - o < 4 {
            return None;
        }
        o = o + 4;
    }
    let mut name: Vec<u16> = Vec::new();
    if common & ATTR_CMN_NAME != 0 {
        if n - o < 8 {
            return None;
        }
        match read_name(rec, o) {
            Some(v) => {
                name = v;
            },
            None => {
                return None;
            },
        }
        o = o + 8;
    }
    assert(o == type_at(common));
    let mut kind: u32 = VNON;
    if common & ATTR_CMN_OBJTYPE != 0 {
        if n - o < 4 {
            return None;
        }
        kind = bytes::u32_at(rec, o);
        o = o + 4;
    }
    let mut created: i64 = 0;
    if common & ATTR_CMN_CRTIME != 0 {
        if n - o < 16 {
            return None;
        }
        created = bytes::to_signed(bytes::u64_at(rec, o));
        o = o + 16;
    }
    assert(o == modified_at(common));
    let mut modified: i64 = 0;
    if common & ATTR_CMN_MODTIME != 0 {
        if n - o < 16 {
            return None;
        }
        modified = bytes::to_signed(bytes::u64_at(rec, o));
        o = o + 16;
    }
    assert(o == total_at(common));
    let mut logical: u64 = 0;
    if file & ATTR_FILE_TOTALSIZE != 0 {
        if n - o < 8 {
            return None;
        }
        logical = bytes::u64_at(rec, o);
        o = o + 8;
    }
    assert(o == alloc_at(common, file));
    let mut on_disk: u64 = 0;
    if file & ATTR_FILE_ALLOCSIZE != 0 {
        if n - o < 8 {
            return None;
        }
        on_disk = bytes::u64_at(rec, o);
    }
    let reparse_tag: Option<u32> = if kind == VLNK {
        Some(LINK_TAG)
    } else {
        None
    };
    let entry = DirEntryData {
        name,
        is_dir: kind == VDIR,
        logical,
        on_disk,
        modified,
        created,
        reparse_tag,
        cloud: false,
        file_id: 0,
    };
    assert(entry.listed().name =~= record_entry(rec@).name);
    Some(entry)
}

/// Symbolic links carry the mark that keeps a scan from following them, and
/// nothing else does.
pub proof fn links_are_marked(rec: Seq<u8>)
    ensures
        record_entry(rec).reparse_tag is Some <==> (common_of(rec) & ATTR_CMN_OBJTYPE != 0
            && bytes::le(rec, type_at(common_of(rec)), 4) == VLNK),
        record_entry(rec).is_dir ==> record_entry(rec).reparse_tag is None,
{
}

// ---------------------------------------------------------------------------
// Listing a directory
// ---------------------------------------------------------------------------

/// What a bulk request asks for.
#[derive(Clone, Copy, Debug, PartialEq, Eq, Structural)]
pub struct AttrRequest {
    pub common: u32,
    pub file: u32,
}

/// Everything: name, type, times and sizes.
pub fn full_attrlist() -> (r: AttrRequest)
    ensures
        r.common == 0xA000_0609,
        r.file == 6,
{
    AttrRequest { common: 0xA000_0609, file: 6 }
}

/// Names, types and errors only: what a directory gives that may be read but
/// not searched.
pub fn list_only_attrlist() -> (r: AttrRequest)
    ensures
        r.common == 0xA000_0009,
        r.file == 0,
{
    AttrRequest { common: 0xA000_0009, file: 0 }
}

/// The bits of the two requests are the attributes they name.
pub proof fn requests_name_their_attributes()
    ensures
        0xA000_0609u32 == ATTR_CMN_RETURNED_ATTRS | ATTR_CMN_ERROR | ATTR_CMN_NAME
            | ATTR_CMN_OBJTYPE | ATTR_CMN_CRTIME | ATTR_CMN_MODTIME,
        6u32 == ATTR_FILE_TOTALSIZE | ATTR_FILE_ALLOCSIZE,
        0xA000_0009u32 == ATTR_CMN_RETURNED_ATTRS | ATTR_CMN_ERROR | ATTR_CMN_NAME
            | ATTR_CMN_OBJTYPE,
{
    assert(0xA000_0609u32 == 0x8000_0000u32 | 0x2000_0000u32 | 0x1u32 | 0x8u32 | 0x200u32
        | 0x400u32) by (bit_vector);
    assert(6u32 == 2u32 | 4u32) by (bit_vector);
    assert(0xA000_0009u32 == 0x8000_0000u32 | 0x2000_0000u32 | 0x1u32 | 0x8u32) by (bit_vector);
}

/// The entries of up to `count` records from `off` on. A record that is too
/// short or does not fit ends the walk; one that cannot be read, and `.` and
/// `..`, are left out.
pub open spec fn bulk_from(b: Seq<u8>, off: int, count: nat) -> Seq<crate::platform::Listed>
    decreases count,
{
    let len = bytes::le(b, off, 4);
    if count == 0 || off + 20 > b.len() || len == 0 || off + len > b.len() {
        Seq::empty()
    } else {
        let rec = b.subrange(off, off + len);
        let head = if is_record(rec) && !win::is_dots(record_entry(rec).name) {
            seq![record_entry(rec)]
        } else {
            Seq::empty()
        };
        head + bulk_from(b, off + len, (count - 1) as nat)
    }
}

/// Whether a name is `.` or `..`.
fn dots(name: &Vec<u16>) -> (r: bool)
    ensures
        r == win::is_dots(name@),
{
    let r = (name.len() == 1 && name[0] == 0x2E) || (name.len() == 2 && name[0] == 0x2E && name[1]
        == 0x2E);
    assert(r == win::is_dots(name@)) by {
        if name.len() == 1 && name[0] == 0x2E {
            assert(name@ =~= seq![0x2Eu16]);
        }
        if name.len() == 2 && name[0] == 0x2E && name[1] == 0x2E {
            assert(name@ =~= seq![0x2Eu16, 0x2Eu16]);
        }
    }
    r
}

/// Appends the entries of one filled buffer.
pub fn parse_bulk(buffer: &[u8], count: usize, entries: &mut Vec<DirEntryData>)
    ensures
        crate::platform::listed(final(entries)@) == crate::platform::listed(old(entries)@)
            + bulk_from(buffer@, 0, count as nat),
{
    let n = buffer.len();
    let mut off: usize = 0;
    let mut left: usize = count;
    let ghost first = crate::platform::listed(entries@);
    while left > 0
        invariant
            n == buffer.len(),
            off <= n,
            first == crate::platform::listed(old(entries)@),
            first + bulk_from(buffer@, 0, count as nat) == crate::platform::listed(entries@)
                + bulk_from(buffer@, off as int, left as nat),
        ensures
            first + bulk_from(buffer@, 0, count as nat) == crate::platform::listed(entries@),
        decreases left,
    {
        let ghost before = crate::platform::listed(entries@);
        if n - off < 20 {
            assert(before + Seq::<crate::platform::Listed>::empty() =~= before);
            break;
        }
        let len = bytes::u32_at(buffer, off) as usize;
        if len == 0 || len > n - off {
            assert(before + Seq::<crate::platform::Listed>::empty() =~= before);
            break;
        }
        let rec = vstd::slice::slice_subrange(buffer, off, off + len);
        let ghost head = if is_record(rec@) && !win::is_dots(record_entry(rec@).name) {
            seq![record_entry(rec@)]
        } else {
            Seq::<crate::platform::Listed>::empty()
        };
        match parse_bulk_record(rec) {
            Some(e) => {
                if !dots(&e.name) {
                    entries.push(e);
                }
            },
            None => {},
        }
        assert(crate::platform::listed(entries@) =~= before + head);
        let ghost tail = bulk_from(buffer@, off + len, (left - 1) as nat);
        assert(before + (head + tail) =~= (before + head) + tail);
        off = off + len;
        left = left - 1;
        if left == 0 {
            assert(tail =~= Seq::empty());
            assert(crate::platform::listed(entries@) + tail =~= crate::platform::listed(entries@));
        }
    }
}

/// What one bulk query gave.
#[derive(Clone, Copy, Debug)]
pub enum BulkReply {
    /// The query failed with an error number.
    Failed(i32),
    /// That many records; 0 at the end of the directory.
    Records(usize),
}

/// What to do after a reply.
#[derive(Clone, Copy, Debug, PartialEq, Eq, Structural)]
pub enum BulkStep {
    /// Query again.
    Query,
    /// Read the directory entry by entry instead; what was read does not count.
    Fallback,
    /// The listing is complete, or ended by its error.
    Done,
}

/// The error numbers of volumes that do not answer bulk queries.
pub open spec fn is_unsupported(e: i32) -> bool {
    e == 22 || e == 45 || e == 102 || e == 78 || e == 19 || e == 25
}

/// The error class of an error number.
pub open spec fn errno_failure(e: i32) -> crate::platform::Failure {
    if e == 13 || e == 1 {
        crate::platform::Failure::AccessDenied
    } else if e == 2 {
        crate::platform::Failure::Vanished
    } else {
        crate::platform::Failure::Other("macOS error "@ + signed_text(e as int))
    }
}

/// A number with its sign.
pub open spec fn signed_text(v: int) -> Seq<char> {
    if v < 0 {
        "-"@ + text::decimal((-v) as nat)
    } else {
        text::decimal(v as nat)
    }
}

/// Writes a number with its sign.
fn signed_string(v: i32) -> (r: String)
    ensures
        r@ == signed_text(v as int),
{
    if v < 0 {
        let d = text::decimal_string((-(v as i64)) as u64);
        text::join2("-", d.as_str())
    } else {
        text::decimal_string(v as u64)
    }
}

/// Maps an error number to the error of a listing.
pub fn errno_list_error(e: i32) -> (r: ListError)
    ensures
        crate::platform::failure(Some(r)) == Some(errno_failure(e)),
{
    if e == 13 || e == 1 {
        ListError::AccessDenied
    } else if e == 2 {
        ListError::Vanished
    } else {
        let d = signed_string(e);
        ListError::Other(text::join2("macOS error ", d.as_str()))
    }
}

/// A directory listing in the making.
#[derive(Clone, Debug)]
pub struct BulkQuery {
    pub entries: Vec<DirEntryData>,
    pub error: Option<ListError>,
    /// Only names and types are asked for.
    pub list_only: bool,
}

impl BulkQuery {
    /// A listing with no reply yet; everything is asked for.
    pub fn new() -> (r: BulkQuery)
        ensures
            r.entries@.len() == 0,
            r.error is None,
            !r.list_only,
    {
        BulkQuery { entries: Vec::new(), error: None, list_only: false }
    }

    /// What the next query asks for.
    pub fn request(&self) -> (r: AttrRequest)
        ensures
            r.common == (if self.list_only {
                0xA000_0009u32
            } else {
                0xA000_0609u32
            }),
            r.file == (if self.list_only {
                0u32
            } else {
                6u32
            }),
    {
        if self.list_only {
            list_only_attrlist()
        } else {
            full_attrlist()
        }
    }

    /// What follows a reply: an interrupted query (4) is repeated; one that is
    /// refused (13, 1) is repeated once for names and types only; a volume that
    /// does not answer bulk queries is read in another way; any other failure
    /// ends the listing.
    pub open spec fn after(&self, reply: BulkReply) -> BulkStep {
        match reply {
            BulkReply::Records(n) => if n == 0 {
                BulkStep::Done
            } else {
                BulkStep::Query
            },
            BulkReply::Failed(e) => if e == 4 || ((e == 13 || e == 1) && !self.list_only) {
                BulkStep::Query
            } else if is_unsupported(e) {
                BulkStep::Fallback
            } else {
                BulkStep::Done
            },
        }
    }

    /// Takes in one reply.
    pub fn step(&mut self, reply: BulkReply, buffer: &[u8]) -> (r: BulkStep)
        requires
            old(self).error is None,
        ensures
            r == old(self).after(reply),
            crate::platform::listed(final(self).entries@) == crate::platform::listed(
                old(self).entries@,
            ) + (match reply {
                BulkReply::Records(n) => bulk_from(buffer@, 0, n as nat),
                BulkReply::Failed(_) => Seq::empty(),
            }),
            final(self).list_only == (old(self).list_only || (reply matches BulkReply::Failed(e)
                && (e == 13 || e == 1))),
            crate::platform::failure(final(self).error) == (match reply {
                BulkReply::Failed(e) => if r == BulkStep::Done {
                    Some(errno_failure(e))
                } else {
                    None
                },
                BulkReply::Records(_) => None,
            }),
    {
        let ghost before = crate::platform::listed(self.entries@);
        match reply {
            BulkReply::Records(n) => {
                parse_bulk(buffer, n, &mut self.entries);
                if n == 0 {
                    BulkStep::Done
                } else {
                    BulkStep::Query
                }
            },
            BulkReply::Failed(e) => {
                assert(before + Seq::<crate::platform::Listed>::empty() =~= before);
                if e == 4 {
                    return BulkStep::Query;
                }
                if (e == 13 || e == 1) && !self.list_only {
                    self.list_only = true;
                    return BulkStep::Query;
                }
                if e == 22 || e == 45 || e == 102 || e == 78 || e == 19 || e == 25 {
                    return BulkStep::Fallback;
                }
                self.error = Some(errno_list_error(e));
                BulkStep::Done
            },
        }
    }
}

/// A directory that may be read but not searched is listed by names: the first
/// refusal leads to another query, not to an error, and a second one ends it.
pub proof fn a_refusal_degrades_once(q: BulkQuery, p: BulkQuery, e: i32)
    requires
        e == 13 || e == 1,
        !q.list_only,
        p.list_only,
    ensures
        q.after(BulkReply::Failed(e)) == BulkStep::Query,
        p.after(BulkReply::Failed(e)) == BulkStep::Done,
{
}

/// `.` and `..` are never among the entries.
pub proof fn dots_are_never_listed(b: Seq<u8>, off: int, count: nat)
    ensures
        forall|k: int|
            0 <= k < bulk_from(b, off, count).len() ==> !win::is_dots(
                (#[trigger] bulk_from(b, off, count)[k]).name,
            ),
    decreases count,
{
    let len = bytes::le(b, off, 4);
    if count == 0 || off + 20 > b.len() || len == 0 || off + len > b.len() {
    } else {
        dots_are_never_listed(b, off + len, (count - 1) as nat);
    }
}

// ---------------------------------------------------------------------------
// Listing entry by entry
// ---------------------------------------------------------------------------

/// What the file system says about one entry.
#[derive(Clone, Copy, Debug)]
pub struct EntryFacts {
    pub is_dir: bool,
    pub is_link: bool,
    pub len: u64,
    /// Blocks of 512 bytes.
    pub blocks: u64,
    /// Seconds since 1970; `None` where unknown or earlier.
    pub modified: Option<u64>,
    pub created: Option<u64>,
}

/// The block count can be turned into bytes.
pub open spec fn countable(facts: Option<EntryFacts>) -> bool {
    facts matches Some(f) ==> f.blocks * 512 <= u64::MAX
}

/// Seconds as a signed number; 0 where unknown.
pub open spec fn seconds(t: Option<u64>) -> int {
    match t {
        Some(s) => bytes::signed(s),
        None => 0,
    }
}

/// The entry that the file system describes; without facts only the name is
/// known.
pub open spec fn plain_entry(name: Seq<char>, facts: Option<EntryFacts>) -> crate::platform::Listed {
    let named = crate::platform::Listed {
        name: text::utf16(name),
        is_dir: false,
        logical: 0,
        on_disk: 0,
        modified: 0,
        created: 0,
        reparse_tag: None,
        cloud: false,
        file_id: 0,
    };
    match facts {
        None => named,
        Some(f) => crate::platform::Listed {
            is_dir: f.is_dir,
            logical: f.len as nat,
            on_disk: (f.blocks * 512) as nat,
            modified: seconds(f.modified),
            created: seconds(f.created),
            reparse_tag: if f.is_link {
                Some(LINK_TAG)
            } else {
                None
            },
            ..named
        },
    }
}

fn seconds_of(t: Option<u64>) -> (r: i64)
    ensures
        r == seconds(t),
{
    match t {
        Some(s) => bytes::to_signed(s),
        None => 0,
    }
}

/// Turns one entry of the file system into an entry of a listing.
pub fn read_dir_entry(name: &str, facts: Option<EntryFacts>) -> (r: DirEntryData)
    requires
        countable(facts),
    ensures
        r.listed() == plain_entry(name@, facts),
{
    let units = text::units_of(name);
    match facts {
        None => DirEntryData {
            name: units,
            is_dir: false,
            logical: 0,
            on_disk: 0,
            modified: 0,
            created: 0,
            reparse_tag: None,
            cloud: false,
            file_id: 0,
        },
        Some(f) => DirEntryData {
            name: units,
            is_dir: f.is_dir,
            logical: f.len,
            on_disk: f.blocks * 512,
            modified: seconds_of(f.modified),
            created: seconds_of(f.created),
            reparse_tag: if f.is_link {
                Some(LINK_TAG)
            } else {
                None
            },
            cloud: false,
            file_id: 0,
        },
    }
}

/// Why a directory could not be read.
#[derive(Clone, Debug)]
pub enum ReadDirError {
    PermissionDenied,
    NotFound,
    Other(String),
}

/// Maps a failure to read a directory to the error of a listing.
pub fn read_dir_failure(e: &ReadDirError) -> (r: ListError)
    ensures
        crate::platform::failure(Some(r)) == Some(
            match *e {
                ReadDirError::PermissionDenied => crate::platform::Failure::AccessDenied,
                ReadDirError::NotFound => crate::platform::Failure::Vanished,
                ReadDirError::Other(t) => crate::platform::Failure::Other(
                    "read_dir fallback: "@ + t@,
                ),
            },
        ),
{
    match e {
        ReadDirError::PermissionDenied => ListError::AccessDenied,
        ReadDirError::NotFound => ListError::Vanished,
        ReadDirError::Other(t) => ListError::Other(text::join2("read_dir fallback: ", t.as_str())),
    }
}

// ---------------------------------------------------------------------------
// Laws
// ---------------------------------------------------------------------------

/// A record that answers a full request holds its values one behind the other:
/// the name reference at 28, the type at 36, the times at 40 and 56, the sizes at
/// 72 and 80. Type two is a folder, type five a link.
pub proof fn a_full_record_holds_its_values(rec: &[u8], r: Option<DirEntryData>)
    requires
        call_ensures(parse_bulk_record, (rec,), r),
        rec@.len() >= 24,
        bytes::le(rec@, 4, 4) as u32 == 0xA000_0609u32,
        bytes::le(rec@, 16, 4) as u32 == 6u32,
    ensures
        ({
            let raw = bytes::le(rec@, 28, 4) as int;
            let start = if raw <= 0x7fff_ffff {
                28 + raw
            } else {
                28 + raw - 0x1_0000_0000
            };
            r is Some <==> rec@.len() >= 88 && start >= 0 && start + bytes::le(rec@, 32, 4)
                <= rec@.len()
        }),
        r matches Some(e) ==> {
            &&& e.is_dir <==> bytes::le(rec@, 36, 4) == 2
            &&& e.reparse_tag is Some <==> bytes::le(rec@, 36, 4) == 5
            &&& e.reparse_tag matches Some(t) ==> t == 0xA000_0009
            &&& e.created == bytes::signed(bytes::le(rec@, 40, 8) as u64)
            &&& e.modified == bytes::signed(bytes::le(rec@, 56, 8) as u64)
            &&& e.logical == bytes::le(rec@, 72, 8)
            &&& e.on_disk == bytes::le(rec@, 80, 8)
            &&& !e.cloud
            &&& e.file_id == 0
        },
{
    assert(0xA000_0609u32 & 0x2000_0000u32 != 0 && 0xA000_0609u32 & 1u32 != 0 && 0xA000_0609u32
        & 8u32 != 0 && 0xA000_0609u32 & 0x200u32 != 0 && 0xA000_0609u32 & 0x400u32 != 0) by (
    bit_vector);
    assert(6u32 & 2u32 != 0 && 6u32 & 4u32 != 0) by (bit_vector);
    if let Some(e) = r {
        assert(e.listed() == record_entry(rec@));
        assert(e.listed().logical == e.logical);
        assert(e.listed().on_disk == e.on_disk);
        assert(e.listed().created == e.created);
        assert(e.listed().modified == e.modified);
        assert(e.listed().is_dir == e.is_dir);
        assert(e.listed().file_id == e.file_id);
    }
}

/// A record that answers a request for names holds the name reference at 28 and
/// the type at 36; its sizes and times read as zero.
pub proof fn a_short_record_holds_its_values(rec: &[u8], r: Option<DirEntryData>)
    requires
        call_ensures(parse_bulk_record, (rec,), r),
        rec@.len() >= 24,
        bytes::le(rec@, 4, 4) as u32 == 0xA000_0009u32,
        bytes::le(rec@, 16, 4) as u32 == 0u32,
    ensures
        r is Some ==> rec@.len() >= 40,
        r matches Some(e) ==> {
            &&& e.is_dir <==> bytes::le(rec@, 36, 4) == 2
            &&& e.reparse_tag is Some <==> bytes::le(rec@, 36, 4) == 5
            &&& e.created == 0 && e.modified == 0 && e.logical == 0 && e.on_disk == 0
        },
{
    assert(0xA000_0009u32 & 0x2000_0000u32 != 0 && 0xA000_0009u32 & 1u32 != 0 && 0xA000_0009u32
        & 8u32 != 0 && 0xA000_0009u32 & 0x200u32 == 0 && 0xA000_0009u32 & 0x400u32 == 0) by (
    bit_vector);
    assert(0u32 & 2u32 == 0 && 0u32 & 4u32 == 0) by (bit_vector);
    if let Some(e) = r {
        assert(e.listed() == record_entry(rec@));
        assert(e.listed().logical == e.logical);
        assert(e.listed().on_disk == e.on_disk);
        assert(e.listed().created == e.created);
        assert(e.listed().modified == e.modified);
        assert(e.listed().is_dir == e.is_dir);
    }
}

/// A name is made of the bytes that its reference counts off from itself; one
/// closing NUL does not belong to it.
pub proof fn a_name_ends_in_front_of_its_nul(rec: Seq<u8>)
    requires
        0 <= name_start(rec) <= name_end(rec) <= rec.len(),
    ensures
        name_start(rec) == name_end(rec) ==> name_bytes(rec).len() == 0,
        name_start(rec) < name_end(rec) && rec[name_end(rec) - 1] != 0 ==> name_bytes(rec)
            == rec.subrange(name_start(rec), name_end(rec)),
        name_start(rec) < name_end(rec) && rec[name_end(rec) - 1] == 0 ==> name_bytes(rec)
            == rec.subrange(name_start(rec), name_end(rec) - 1),
{
    let b = rec.subrange(name_start(rec), name_end(rec));
    if b.len() > 0 {
        assert(b.last() == rec[name_end(rec) - 1]);
        assert(b.drop_last() =~= rec.subrange(name_start(rec), name_end(rec) - 1));
    }
}

/// The records of a buffer stand one behind the other, each as long as it says,
/// no more of them than were counted. Those that can be read are listed in their
/// order, but for `.` and `..`.
pub proof fn every_record_in_the_buffer_is_listed(b: Seq<u8>, off: int, count: nat) -> (offs: Seq<
    int,
>)
    requires
        0 <= off,
    ensures
        offs.len() <= count,
        offs.len() > 0 ==> offs[0] == off,
        forall|k: int|
            0 <= k < offs.len() ==> off <= #[trigger] offs[k] && offs[k] + 20 <= b.len() && bytes::le(
                b,
                offs[k],
                4,
            ) > 0 && offs[k] + bytes::le(b, offs[k], 4) <= b.len(),
        forall|k: int, j: int|
            #![trigger offs[k], offs[j]]
            0 <= k && j == k + 1 && j < offs.len() ==> offs[j] == offs[k] + bytes::le(
                b,
                offs[k],
                4,
            ),
        offs.len() < count ==> ({
            let next = if offs.len() == 0 {
                off
            } else {
                offs.last() + bytes::le(b, offs.last(), 4)
            };
            next + 20 > b.len() || bytes::le(b, next, 4) == 0 || next + bytes::le(b, next, 4)
                > b.len()
        }),
        bulk_from(b, off, count) == offs.filter(
            |o: int|
                {
                    let rec = b.subrange(o, o + bytes::le(b, o, 4));
                    let name = record_entry(rec).name;
                    is_record(rec) && name != seq![0x2Eu16] && name != seq![0x2Eu16, 0x2Eu16]
                },
        ).map_values(|o: int| record_entry(b.subrange(o, o + bytes::le(b, o, 4)))),
    decreases count,
{
    let p = |o: int|
        {
            let rec = b.subrange(o, o + bytes::le(b, o, 4));
            let name = record_entry(rec).name;
            is_record(rec) && name != seq![0x2Eu16] && name != seq![0x2Eu16, 0x2Eu16]
        };
    let f = |o: int| record_entry(b.subrange(o, o + bytes::le(b, o, 4)));
    let len = bytes::le(b, off, 4);
    if count == 0 || off + 20 > b.len() || len == 0 || off + len > b.len() {
        let none = Seq::<int>::empty();
        crate::seqs::filter_nothing(p);
        assert(none.filter(p).map_values(f) =~= Seq::<crate::platform::Listed>::empty());
        none
    } else {
        let one = seq![off];
        crate::seqs::filter_nothing(p);
        crate::seqs::filter_push(Seq::<int>::empty(), off, p);
        assert(Seq::<int>::empty().push(off) =~= one);
        let head = one.filter(p).map_values(f);
        let rest = every_record_in_the_buffer_is_listed(b, off + len, (count - 1) as nat);
        let offs = one + rest;
        Seq::filter_distributes_over_add(one, rest, p);
        assert(offs.filter(p).map_values(f) =~= head + rest.filter(p).map_values(f));
        assert(bulk_from(b, off, count) =~= head + bulk_from(b, off + len, (count - 1) as nat));
        assert forall|k: int, j: int|
            #![trigger offs[k], offs[j]]
            0 <= k && j == k + 1 && j < offs.len() implies offs[j] == offs[k] + bytes::le(
            b,
            offs[k],
            4,
        ) by {
            if k > 0 {
                assert(rest[k - 1] == offs[k] && rest[j - 1] == offs[j]);
            }
        }
        if rest.len() > 0 {
            assert(offs.last() == rest.last());
        } else {
            assert(offs.last() == off);
        }
        offs
    }
}

/// The next step follows the reply: records lead to another query until none
/// come; an interruption is repeated; a refusal asks for names alone, once; six
/// numbers say that the volume must be read in another way; any other ends it.
pub proof fn a_reply_leads_on(q: BulkQuery, e: i32, n: usize)
    ensures
        q.after(BulkReply::Records(n)) == BulkStep::Done <==> n == 0,
        q.after(BulkReply::Records(n)) == BulkStep::Query <==> n > 0,
        q.after(BulkReply::Failed(e)) == BulkStep::Query <==> e == 4 || (!q.list_only && (e == 13
            || e == 1)),
        q.after(BulkReply::Failed(e)) == BulkStep::Fallback <==> e == 19 || e == 22 || e == 25 || e
            == 45 || e == 78 || e == 102,
{
}

/// Error 13 and error 1 are refusals, error 2 says that the folder is gone, and
/// any other is named by its number.
pub proof fn an_errno_has_its_class(e: i32, r: ListError)
    requires
        call_ensures(errno_list_error, (e,), r),
    ensures
        r is AccessDenied <==> e == 13 || e == 1,
        r is Vanished <==> e == 2,
        r matches ListError::Other(t) ==> e >= 0 ==> t@ == "macOS error "@ + text::decimal(e as nat),
        r matches ListError::Other(t) ==> e < 0 ==> t@ == "macOS error "@ + ("-"@ + text::decimal(
            (-e) as nat,
        )),
{
}

/// An entry carries what the file system says of it: its length, 512 bytes for
/// each block, its times and whether it is a folder or a link. Without that only
/// its name is known.
pub proof fn an_entry_carries_its_facts(name: &str, facts: Option<EntryFacts>, r: DirEntryData)
    requires
        facts matches Some(f) ==> f.blocks * 512 <= u64::MAX,
        call_ensures(read_dir_entry, (name, facts), r),
    ensures
        r.name@ == text::utf16(name@),
        facts is None ==> !r.is_dir && r.logical == 0 && r.on_disk == 0 && r.modified == 0
            && r.created == 0 && r.reparse_tag is None,
        facts matches Some(f) ==> {
            &&& r.is_dir == f.is_dir
            &&& r.logical == f.len
            &&& r.on_disk == 512 * f.blocks
            &&& r.reparse_tag is Some <==> f.is_link
            &&& f.modified is None ==> r.modified == 0
            &&& f.created is None ==> r.created == 0
            &&& f.modified matches Some(t) ==> t < 0x8000_0000_0000_0000 ==> r.modified == t
            &&& f.created matches Some(t) ==> t < 0x8000_0000_0000_0000 ==> r.created == t
        },
{
    assert(r.listed() == plain_entry(name@, facts));
    assert(r.listed().name == r.name@);
    assert(r.listed().logical == r.logical);
    assert(r.listed().on_disk == r.on_disk);
    assert(r.listed().created == r.created);
    assert(r.listed().modified == r.modified);
}

/// A folder that cannot be read has the class of its failure.
pub proof fn a_read_failure_has_its_class(e: &ReadDirError, r: ListError)
    requires
        call_ensures(read_dir_failure, (e,), r),
    ensures
        *e is PermissionDenied <==> r is AccessDenied,
        *e is NotFound <==> r is Vanished,
        *e matches ReadDirError::Other(t) ==> r matches ListError::Other(u) && u@
            == "read_dir fallback: "@ + t@,
{
}

} // verus!
