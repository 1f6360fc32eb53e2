//! Windows: the decisions on what the system calls return.
use vstd::prelude::*;

use crate::bytes;
use crate::platform::{DirEntryData, ListError};
use crate::text;

verus! {

/// The Windows platform.
#[derive(Clone, Copy, Debug, Default)]
pub struct WindowsPlatform;

/// Bytes of the buffer that directory queries fill.
pub const BUFFER_BYTES: usize = 262144;

/// Bytes of a directory record in front of its name.
pub const HEADER: usize = 80;

/// The status that ends an enumeration.
pub const STATUS_NO_MORE_FILES: i32 = -2147483642;

const ATTR_DIRECTORY: u32 = 0x10;

const ATTR_REPARSE: u32 = 0x400;

/// Offline, recall on open, recall on data access.
const ATTR_CLOUD: u32 = 0x441000;

// ---------------------------------------------------------------------------
// Times
// ---------------------------------------------------------------------------

/// Ticks of 100 ns since 1601 as Unix seconds; 0 stays 0 (unknown).
pub open spec fn unix_seconds(ft: u64) -> int {
    if ft == 0 {
        0
    } else {
        ft / 10_000_000 - 11_644_473_600
    }
}

/// Converts a file time to Unix seconds.
pub fn filetime_to_unix(ft: u64) -> (r: i64)
    ensures
        r == unix_seconds(ft),
{
    if ft == 0 {
        return 0;
    }
    (ft / 10_000_000) as i64 - 11_644_473_600
}

// ---------------------------------------------------------------------------
// Directory records
// ---------------------------------------------------------------------------

/// Whether a name is `.` or `..`.
pub open spec fn is_dots(name: Seq<u16>) -> bool {
    name == seq![0x2Eu16] || name == seq![0x2Eu16, 0x2Eu16]
}

/// The entry that the record at `off` describes.
pub open spec fn entry_at(b: Seq<u8>, off: int) -> crate::platform::Listed {
    let attrs = bytes::le(b, off + 56, 4) as u32;
    crate::platform::Listed {
        name: bytes::units(b, off + HEADER, (bytes::le(b, off + 60, 4) / 2) as nat),
        is_dir: attrs & 0x10 != 0,
        logical: bytes::distance(bytes::signed(bytes::le(b, off + 40, 8) as u64)),
        on_disk: bytes::distance(bytes::signed(bytes::le(b, off + 48, 8) as u64)),
        modified: unix_seconds(bytes::le(b, off + 24, 8) as u64),
        created: unix_seconds(bytes::le(b, off + 8, 8) as u64),
        reparse_tag: if attrs & 0x400 != 0 {
            Some(bytes::le(b, off + 64, 4) as u32)
        } else {
            None
        },
        cloud: attrs & 0x441000 != 0,
        file_id: bytes::le(b, off + 72, 8),
    }
}

/// What is wrong with the record at `off` of `returned` bytes.
pub open spec fn fault_at(b: Seq<u8>, returned: int, off: int) -> Option<Seq<char>> {
    let last = if returned < HEADER {
        0
    } else {
        returned - HEADER
    };
    let name_bytes = bytes::le(b, off + 60, 4);
    if off > last {
        Some("record header exceeds the returned length"@)
    } else if name_bytes % 2 != 0 {
        Some("record has an odd UTF-16 byte length"@)
    } else if off + HEADER + name_bytes > returned {
        Some("record name exceeds the returned length"@)
    } else {
        None
    }
}

/// The entries from the record at `off` on, in order, up to the first fault.
///
/// A record names how far behind it the next one stands; 0, or a place behind
/// the returned bytes, ends the chain. `.` and `..` are left out.
pub open spec fn entries_from(b: Seq<u8>, returned: int, off: int) -> Seq<crate::platform::Listed>
    decreases returned - off,
{
    if fault_at(b, returned, off) is Some {
        Seq::empty()
    } else {
        let here = entry_at(b, off);
        let head = if is_dots(here.name) {
            Seq::empty()
        } else {
            seq![here]
        };
        let step = bytes::le(b, off, 4);
        if step == 0 || off + step >= returned {
            head
        } else {
            head + entries_from(b, returned, off + step)
        }
    }
}

/// The fault that ends the chain from the record at `off` on.
pub open spec fn fault_from(b: Seq<u8>, returned: int, off: int) -> Option<Seq<char>>
    decreases returned - off,
{
    match fault_at(b, returned, off) {
        Some(t) => Some(t),
        None => {
            let step = bytes::le(b, off, 4);
            if step == 0 {
                None
            } else if off + step > usize::MAX {
                Some("NextEntryOffset overflow"@)
            } else if off + step >= returned {
                None
            } else {
                fault_from(b, returned, off + step)
            }
        },
    }
}

/// A fault as the error of a listing.
pub open spec fn as_failure(t: Option<Seq<char>>) -> Option<crate::platform::Failure> {
    match t {
        None => None,
        Some(t) => Some(crate::platform::Failure::Other(t)),
    }
}

/// Reads the record at `off`, whose name has been found to lie in the buffer.
fn read_entry(b: &[u8], off: usize) -> (r: DirEntryData)
    requires
        off + HEADER + bytes::le(b@, off + 60, 4) <= b.len(),
        bytes::le(b@, off + 60, 4) % 2 == 0,
    ensures
        r.listed() == entry_at(b@, off as int),
{
    let attrs = bytes::u32_at(b, off + 56);
    let name_bytes = bytes::u32_at(b, off + 60) as usize;
    let name = bytes::units_at(b, off + HEADER, name_bytes / 2);
    let reparse_tag = if attrs & ATTR_REPARSE != 0 {
        Some(bytes::u32_at(b, off + 64))
    } else {
        None
    };
    let created = bytes::u64_at(b, off + 8);
    let modified = bytes::u64_at(b, off + 24);
    let logical = bytes::u64_at(b, off + 40);
    let on_disk = bytes::u64_at(b, off + 48);
    DirEntryData {
        name,
        is_dir: attrs & ATTR_DIRECTORY != 0,
        logical: bytes::magnitude(logical),
        on_disk: bytes::magnitude(on_disk),
        modified: filetime_to_unix(modified),
        created: filetime_to_unix(created),
        reparse_tag,
        cloud: attrs & ATTR_CLOUD != 0,
        file_id: bytes::u64_at(b, off + 72),
    }
}

/// Appends the entries of one filled buffer and returns what ended the chain.
pub fn parse_records(buffer: &[u8], returned: usize, entries: &mut Vec<DirEntryData>) -> (r: Option<
    ListError,
>)
    requires
        HEADER <= buffer.len(),
        0 < returned <= buffer.len(),
    ensures
        crate::platform::listed(final(entries)@) == crate::platform::listed(old(entries)@)
            + entries_from(buffer@, returned as int, 0),
        crate::platform::failure(r) == as_failure(fault_from(buffer@, returned as int, 0)),
{
    let mut off: usize = 0;
    let last: usize = if returned < HEADER {
        0
    } else {
        returned - HEADER
    };
    loop
        invariant
            HEADER <= buffer.len(),
            off < returned <= buffer.len(),
            last == (if returned < HEADER {
                0
            } else {
                returned - HEADER
            }),
            crate::platform::listed(old(entries)@) + entries_from(buffer@, returned as int, 0)
                == crate::platform::listed(entries@) + entries_from(
                buffer@,
                returned as int,
                off as int,
            ),
            fault_from(buffer@, returned as int, 0) == fault_from(
                buffer@,
                returned as int,
                off as int,
            ),
        decreases returned - off,
    {
        if off > last {
            assert(entries_from(buffer@, returned as int, off as int) =~= Seq::empty());
            return Some(
                ListError::Other("record header exceeds the returned length".to_owned()),
            );
        }
        let name_bytes = bytes::u32_at(buffer, off + 60);
        if name_bytes % 2 != 0 {
            return Some(ListError::Other("record has an odd UTF-16 byte length".to_owned()));
        }
        if name_bytes as usize > returned - off || returned - off - (name_bytes as usize) < HEADER {
            return Some(ListError::Other("record name exceeds the returned length".to_owned()));
        }
        assert(fault_at(buffer@, returned as int, off as int) is None);
        let entry = read_entry(buffer, off);
        let ghost here = entry_at(buffer@, off as int);
        let ghost before = entries@;
        let dots = (entry.name.len() == 1 && entry.name[0] == 0x2E) || (entry.name.len() == 2
            && entry.name[0] == 0x2E && entry.name[1] == 0x2E);
        assert(dots == is_dots(here.name)) by {
            if entry.name.len() == 1 && entry.name[0] == 0x2E {
                assert(here.name =~= seq![0x2Eu16]);
            }
            if entry.name.len() == 2 && entry.name[0] == 0x2E && entry.name[1] == 0x2E {
                assert(here.name =~= seq![0x2Eu16, 0x2Eu16]);
            }
        }
        let ghost head = if dots {
            Seq::<crate::platform::Listed>::empty()
        } else {
            seq![here]
        };
        if !dots {
            entries.push(entry);
        }
        assert(crate::platform::listed(entries@) =~= crate::platform::listed(before) + head);
        let step = bytes::u32_at(buffer, off) as usize;
        if step == 0 {
            return None;
        }
        if step > usize::MAX - off {
            return Some(ListError::Other("NextEntryOffset overflow".to_owned()));
        }
        if step >= returned - off {
            return None;
        }
        assert(crate::platform::listed(before) + (head + entries_from(
            buffer@,
            returned as int,
            off + step,
        )) =~= (crate::platform::listed(before) + head) + entries_from(
            buffer@,
            returned as int,
            off + step,
        ));
        off = off + step;
    }
}

/// No listing holds `.` or `..`.
pub proof fn dots_are_never_listed(b: Seq<u8>, returned: int, off: int)
    ensures
        forall|k: int|
            0 <= k < entries_from(b, returned, off).len() ==> !is_dots(
                (#[trigger] entries_from(b, returned, off)[k]).name,
            ),
    decreases returned - off,
{
    if fault_at(b, returned, off) is None {
        let step = bytes::le(b, off, 4);
        if step != 0 && off + step < returned {
            dots_are_never_listed(b, returned, off + step);
        }
    }
}

/// What one directory query gave.
///
/// A status below zero is a failure; `dos` is the system's own number for
/// it. Otherwise `returned` bytes of the buffer were filled.
#[derive(Clone, Copy, Debug)]
pub struct QueryReply {
    pub status: i32,
    pub dos: u32,
    pub returned: usize,
}

/// A number as 32 bits without a sign.
pub open spec fn bits32(v: i32) -> nat {
    if v < 0 {
        (v + 0x1_0000_0000) as nat
    } else {
        v as nat
    }
}

/// The error class of a failing status.
pub open spec fn status_failure(status: i32, dos: u32) -> crate::platform::Failure {
    if dos == 5 {
        crate::platform::Failure::AccessDenied
    } else if dos == 2 || dos == 3 {
        crate::platform::Failure::Vanished
    } else {
        crate::platform::Failure::Other(
            "directory enumeration failed (status 0x"@ + text::hex(bits32(status)) + ", winerror "@
                + text::decimal(dos as nat) + ")"@,
        )
    }
}

/// Maps a status of the enumeration to an error; `None` is its normal end.
pub fn classify_ntstatus(status: i32, dos: u32) -> (r: Option<ListError>)
    ensures
        crate::platform::failure(r) == (if status == STATUS_NO_MORE_FILES {
            None
        } else {
            Some(status_failure(status, dos))
        }),
{
    if status == STATUS_NO_MORE_FILES {
        return None;
    }
    if dos == 5 {
        return Some(ListError::AccessDenied);
    }
    if dos == 2 || dos == 3 {
        return Some(ListError::Vanished);
    }
    let bits: u64 = if status < 0 {
        (status as i64 + 0x1_0000_0000) as u64
    } else {
        status as u64
    };
    let mut t: String = "directory enumeration failed (status 0x".to_owned();
    let h = text::hex_string(bits);
    t.append(h.as_str());
    t.append(", winerror ");
    let d = text::decimal_string(dos as u64);
    t.append(d.as_str());
    t.append(")");
    Some(ListError::Other(t))
}

/// Maps a failure to open a directory, given its Win32 code and text.
pub fn classify_open_error(code: u32, message: String) -> (r: ListError)
    ensures
        crate::platform::failure(Some(r)) == Some(
            if code == 5 {
                crate::platform::Failure::AccessDenied
            } else if code == 2 || code == 3 {
                crate::platform::Failure::Vanished
            } else {
                crate::platform::Failure::Other(message@)
            },
        ),
{
    if code == 5 {
        ListError::AccessDenied
    } else if code == 2 || code == 3 {
        ListError::Vanished
    } else {
        ListError::Other(message)
    }
}

/// A filled length that cannot be.
pub open spec fn bad_length(returned: int, capacity: int) -> Seq<char> {
    "enumeration returned "@ + text::decimal(returned as nat) + " bytes for a "@ + text::decimal(
        capacity as nat,
    ) + "-byte buffer"@
}

/// The entries that one reply adds.
pub open spec fn reply_entries(q: QueryReply, b: Seq<u8>) -> Seq<crate::platform::Listed> {
    if q.status < 0 || q.returned == 0 || q.returned > b.len() {
        Seq::empty()
    } else {
        entries_from(b, q.returned as int, 0)
    }
}

/// The error that one reply brings.
pub open spec fn reply_failure(q: QueryReply, b: Seq<u8>) -> Option<crate::platform::Failure> {
    if q.status == STATUS_NO_MORE_FILES {
        None
    } else if q.status < 0 {
        Some(status_failure(q.status, q.dos))
    } else if q.returned == 0 || q.returned > b.len() {
        Some(crate::platform::Failure::Other(bad_length(q.returned as int, b.len() as int)))
    } else {
        as_failure(fault_from(b, q.returned as int, 0))
    }
}

/// A directory listing in the making.
///
/// The caller opens the directory and queries it until `more` is false.
#[derive(Clone, Debug)]
pub struct DirQuery {
    pub entries: Vec<DirEntryData>,
    pub error: Option<ListError>,
    /// Another query is due.
    pub more: bool,
}

impl DirQuery {
    /// A listing with no reply yet.
    pub fn new() -> (r: DirQuery)
        ensures
            r.entries@.len() == 0,
            r.error is None,
            r.more,
    {
        DirQuery { entries: Vec::new(), error: None, more: true }
    }

    /// A listing whose directory could not be opened.
    pub fn unopened(e: ListError) -> (r: DirQuery)
        ensures
            r.entries@.len() == 0,
            r.error == Some(e),
            !r.more,
    {
        DirQuery { entries: Vec::new(), error: Some(e), more: false }
    }

    /// Takes in one reply: its entries are appended, and a fault or the end of
    /// the enumeration ends the listing. Entries read before a fault stay.
    pub fn step(&mut self, q: QueryReply, buffer: &[u8])
        requires
            old(self).more,
            old(self).error is None,
            HEADER <= buffer.len(),
        ensures
            crate::platform::listed(final(self).entries@) == crate::platform::listed(
                old(self).entries@,
            ) + reply_entries(q, buffer@),
            crate::platform::failure(final(self).error) == reply_failure(q, buffer@),
            final(self).more == (q.status != STATUS_NO_MORE_FILES && reply_failure(q, buffer@)
                is None),
    {
        let ghost before = crate::platform::listed(self.entries@);
        if q.status < 0 {
            self.error = classify_ntstatus(q.status, q.dos);
            self.more = false;
            assert(before + Seq::<crate::platform::Listed>::empty() =~= before);
            return;
        }
        if q.returned == 0 || q.returned > buffer.len() {
            let mut t: String = "enumeration returned ".to_owned();
            let got = text::decimal_string(q.returned as u64);
            t.append(got.as_str());
            t.append(" bytes for a ");
            let cap = text::decimal_string(buffer.len() as u64);
            t.append(cap.as_str());
            t.append("-byte buffer");
            self.error = Some(ListError::Other(t));
            self.more = false;
            assert(before + Seq::<crate::platform::Listed>::empty() =~= before);
            return;
        }
        self.error = parse_records(buffer, q.returned, &mut self.entries);
        self.more = self.error.is_none();
    }
}

// ---------------------------------------------------------------------------
// Laws
// ---------------------------------------------------------------------------

/// A file time counts ten million ticks to a second and starts 11644473600
/// seconds before 1970; an unset one is unknown.
pub proof fn a_file_time_counts_from_1601(ft: u64, r: i64)
    requires
        call_ensures(filetime_to_unix, (ft,), r),
    ensures
        ft == 0 ==> r == 0,
        ft > 0 ==> (r + 11_644_473_600) * 10_000_000 <= ft < (r + 11_644_473_600 + 1) * 10_000_000,
{
}

/// A record tells its entry: the times at 8 and 24, the sizes at 40 and 48, the
/// attributes at 56, the tag at 64, the id at 72 and the name at 80. Bits of the
/// attributes tell folders, links and files whose content is elsewhere.
pub proof fn a_record_tells_its_entry(b: Seq<u8>, off: int)
    ensures
        ({
            let e = entry_at(b, off);
            let attrs = bytes::le(b, off + 56, 4) as u32;
            &&& e.is_dir <==> attrs & 0x10u32 != 0
            &&& e.reparse_tag is Some <==> attrs & 0x400u32 != 0
            &&& e.cloud <==> attrs & 0x1000u32 != 0 || attrs & 0x4_0000u32 != 0 || attrs
                & 0x40_0000u32 != 0
            &&& e.reparse_tag matches Some(t) ==> t == bytes::le(b, off + 64, 4) as u32
            &&& e.file_id == bytes::le(b, off + 72, 8)
            &&& e.name.len() == bytes::le(b, off + 60, 4) / 2
            &&& forall|k: int|
                0 <= k < e.name.len() ==> #[trigger] e.name[k] == bytes::le(
                    b,
                    off + 80 + 2 * k,
                    2,
                ) as u16
            &&& bytes::le(b, off + 40, 8) < 0x8000_0000_0000_0000 ==> e.logical == bytes::le(
                b,
                off + 40,
                8,
            ) as u64
            &&& bytes::le(b, off + 48, 8) < 0x8000_0000_0000_0000 ==> e.on_disk == bytes::le(
                b,
                off + 48,
                8,
            ) as u64
            &&& bytes::le(b, off + 24, 8) as u64 == 0 ==> e.modified == 0
            &&& bytes::le(b, off + 8, 8) as u64 == 0 ==> e.created == 0
            &&& bytes::le(b, off + 24, 8) as u64 > 0 ==> e.modified == (bytes::le(b, off + 24, 8)
                as u64) as int / 10_000_000 - 11_644_473_600
            &&& bytes::le(b, off + 8, 8) as u64 > 0 ==> e.created == (bytes::le(b, off + 8, 8)
                as u64) as int / 10_000_000 - 11_644_473_600
        }),
{
    let attrs = bytes::le(b, off + 56, 4) as u32;
    assert(attrs & 0x441000u32 != 0 <==> attrs & 0x1000u32 != 0 || attrs & 0x4_0000u32 != 0 || attrs
        & 0x40_0000u32 != 0) by (bit_vector);
    assert(bytes::le(b, off + 40, 8) < 0x8000_0000_0000_0000 ==> bytes::le(b, off + 40, 8) as u64
        == bytes::le(b, off + 40, 8));
}

/// A record that can be read: its header and its name lie in the returned bytes,
/// and the name is made of whole units.
pub open spec fn can_be_read(b: Seq<u8>, returned: int, off: int) -> bool {
    &&& off == 0 || off + 80 <= returned
    &&& bytes::le(b, off + 60, 4) % 2 == 0
    &&& off + 80 + bytes::le(b, off + 60, 4) <= returned
}

/// The records of a buffer: each stands as far behind the one before as that one
/// says, up to one that ends the chain or cannot be read. All of them but `.` and
/// `..` are listed, in their order.
pub proof fn every_record_in_the_chain_is_listed(b: Seq<u8>, returned: int, off: int) -> (offs: Seq<
    int,
>)
    requires
        0 <= off < returned,
    ensures
        offs.len() > 0 <==> can_be_read(b, returned, off),
        offs.len() > 0 ==> offs[0] == off,
        forall|k: int|
            0 <= k < offs.len() ==> can_be_read(b, returned, #[trigger] offs[k]),
        forall|k: int, j: int|
            #![trigger offs[k], offs[j]]
            0 <= k && j == k + 1 && j < offs.len() ==> offs[j] == offs[k] + bytes::le(
                b,
                offs[k],
                4,
            ) && offs[j] > offs[k],
        offs.len() > 0 ==> ({
            let step = bytes::le(b, offs.last(), 4);
            let next = offs.last() + step;
            step == 0 || next >= returned || !can_be_read(b, returned, next)
        }),
        entries_from(b, returned, off) == offs.filter(
            |o: int|
                {
                    let name = entry_at(b, o).name;
                    !(name.len() == 1 && name[0] == 0x2E) && !(name.len() == 2 && name[0] == 0x2E
                        && name[1] == 0x2E)
                },
        ).map_values(|o: int| entry_at(b, o)),
    decreases returned - off,
{
    let p = |o: int|
        {
            let name = entry_at(b, o).name;
            !(name.len() == 1 && name[0] == 0x2E) && !(name.len() == 2 && name[0] == 0x2E && name[1]
                == 0x2E)
        };
    let f = |o: int| entry_at(b, o);
    if fault_at(b, returned, off) is Some {
        let none = Seq::<int>::empty();
        crate::seqs::filter_nothing(p);
        assert(none.filter(p).map_values(f) =~= Seq::<crate::platform::Listed>::empty());
        none
    } else {
        let name = entry_at(b, off).name;
        if name.len() == 1 && name[0] == 0x2E {
            assert(name =~= seq![0x2Eu16]);
        }
        if name.len() == 2 && name[0] == 0x2E && name[1] == 0x2E {
            assert(name =~= seq![0x2Eu16, 0x2Eu16]);
        }
        assert(p(off) <==> !is_dots(name));
        let step = bytes::le(b, off, 4);
        let one = seq![off];
        crate::seqs::filter_nothing(p);
        crate::seqs::filter_push(Seq::<int>::empty(), off, p);
        assert(Seq::<int>::empty().push(off) =~= one);
        let head = one.filter(p).map_values(f);
        if step == 0 || off + step >= returned {
            assert(entries_from(b, returned, off) =~= head);
            one
        } else {
            let rest = every_record_in_the_chain_is_listed(b, returned, off + step);
            let offs = one + rest;
            Seq::filter_distributes_over_add(one, rest, p);
            assert(offs.filter(p).map_values(f) =~= head + rest.filter(p).map_values(f));
            assert(entries_from(b, returned, off) =~= head + entries_from(b, returned, off + step));
            assert forall|k: int, j: int|
                #![trigger offs[k], offs[j]]
                0 <= k && j == k + 1 && j < offs.len() implies offs[j] == offs[k] + bytes::le(
                b,
                offs[k],
                4,
            ) && offs[j] > offs[k] by {
                if k > 0 {
                    assert(rest[k - 1] == offs[k] && rest[j - 1] == offs[j]);
                }
            }
            if rest.len() > 0 {
                assert(offs.last() == rest.last());
            }
            offs
        }
    }
}

/// The end of an enumeration is no error; code 5 is a refusal, codes 2 and 3 say
/// that the folder is gone, and any other failure names its two numbers.
pub proof fn a_status_has_its_class(status: i32, dos: u32, r: Option<ListError>)
    requires
        call_ensures(classify_ntstatus, (status, dos), r),
    ensures
        status == -2147483642 <==> r is None,
        r matches Some(e) ==> {
            &&& e is AccessDenied <==> dos == 5
            &&& e is Vanished <==> dos == 2 || dos == 3
            &&& e matches ListError::Other(t) ==> t@ == "directory enumeration failed (status 0x"@
                + text::hex(
                (if status < 0 {
                    status + 0x1_0000_0000
                } else {
                    status as int
                }) as nat,
            ) + ", winerror "@ + text::decimal(dos as nat) + ")"@
        },
{
}

/// A folder that cannot be opened has the class of its code: 5 is a refusal, 2
/// and 3 say that it is gone, and any other keeps the system's text.
pub proof fn an_open_error_has_its_class(code: u32, message: String, r: ListError)
    requires
        call_ensures(classify_open_error, (code, message), r),
    ensures
        r is AccessDenied <==> code == 5,
        r is Vanished <==> code == 2 || code == 3,
        r matches ListError::Other(t) ==> t@ == message@,
{
}

/// A reply adds entries where it succeeded and says how many bytes it filled;
/// any other ends the listing, with an error unless the enumeration is over.
pub proof fn a_reply_adds_what_it_filled(q: QueryReply, b: Seq<u8>)
    ensures
        q.status < 0 || q.returned == 0 || q.returned > b.len() ==> reply_entries(q, b).len() == 0,
        q.status >= 0 && 0 < q.returned <= b.len() ==> reply_entries(q, b) == entries_from(
            b,
            q.returned as int,
            0,
        ),
        q.status == -2147483642 ==> reply_failure(q, b) is None,
        q.status < 0 && q.status != -2147483642 ==> reply_failure(q, b) is Some,
        q.status >= 0 && (q.returned == 0 || q.returned > b.len()) ==> (reply_failure(q, b) matches Some(
            crate::platform::Failure::Other(t),
        ) && t == "enumeration returned "@ + text::decimal(q.returned as nat) + " bytes for a "@
            + text::decimal(b.len()) + "-byte buffer"@),
        q.status >= 0 && 0 < q.returned <= b.len() && !can_be_read(b, q.returned as int, 0)
            ==> reply_failure(q, b) is Some,
{
}

} // verus!
