//! Text as sequences of characters and of UTF-16 units.
//!
//! Names in the tree are UTF-16 (they may hold unpaired surrogates), paths and
//! labels are `String`s. Case folding is ASCII only throughout.
use vstd::prelude::*;

verus! {

/// `String::push` appends one character and leaves what was there unchanged.
pub assume_specification[ String::push ](s: &mut String, c: char)
    ensures
        final(s)@ == old(s)@.push(c),
;

/// `char::from_u32` returns the character with the given scalar value, and
/// `None` exactly for surrogates and for values above `0x10FFFF`.
pub assume_specification[ char::from_u32 ](i: u32) -> (r: Option<char>)
    ensures
        r is Some <==> (i <= 0xD7FF || 0xE000 <= i <= 0x10FFFF),
        r matches Some(c) ==> c as u32 == i,
;

// ---------------------------------------------------------------------------
// Case folding
// ---------------------------------------------------------------------------

/// `A`–`Z` become `a`–`z`; every other character stays.
pub open spec fn lower_char(c: char) -> char {
    if 'A' <= c && c <= 'Z' {
        (c as u32 + 32) as char
    } else {
        c
    }
}

/// ASCII lower case of a text.
pub open spec fn lower(s: Seq<char>) -> Seq<char> {
    s.map_values(|c: char| lower_char(c))
}

/// ASCII upper-case units become lower case; every other unit stays.
pub open spec fn lower_unit(c: u16) -> u16 {
    if 0x41 <= c <= 0x5A {
        (c + 0x20) as u16
    } else {
        c
    }
}

/// `A`–`Z` (ASCII) to `a`–`z`; everything else unchanged.
pub fn lower_ascii_u16(c: u16) -> (r: u16)
    ensures
        r == lower_unit(c),
{
    if 0x41 <= c && c <= 0x5A {
        c + 0x20
    } else {
        c
    }
}

/// Lower case of one character.
pub fn to_lower_char(c: char) -> (r: char)
    ensures
        r == lower_char(c),
{
    if 'A' <= c && c <= 'Z' {
        let b: u8 = c as u8;
        (b + 32) as char
    } else {
        c
    }
}

/// Lower case of a text.
pub fn to_lower(cs: &[char]) -> (r: Vec<char>)
    ensures
        r@ == lower(cs@),
{
    let mut out: Vec<char> = Vec::new();
    let mut i: usize = 0;
    while i < cs.len()
        invariant
            i <= cs.len(),
            out@ == lower(cs@.take(i as int)),
        decreases cs.len() - i,
    {
        assert(lower(cs@.take(i + 1)) =~= lower(cs@.take(i as int)).push(lower_char(cs@[i as int])));
        out.push(to_lower_char(cs[i]));
        i += 1;
    }
    assert(cs@.take(i as int) =~= cs@);
    out
}

/// Folding a second time changes nothing.
pub proof fn lower_is_idempotent(s: Seq<char>)
    ensures
        lower(lower(s)) == lower(s),
{
    assert(lower(lower(s)) =~= lower(s));
}

// ---------------------------------------------------------------------------
// Conversions between `str` and characters
// ---------------------------------------------------------------------------

/// The characters of a string.
pub fn chars_of(s: &str) -> (r: Vec<char>)
    ensures
        r@ == s@,
{
    let mut out: Vec<char> = Vec::new();
    for c in it: s.chars()
        invariant
            out@ == it.seq().take(it.index()),
            it.seq() == s@,
    {
        out.push(c);
    }
    out
}

/// The string made of the given characters.
pub fn string_of(cs: &[char]) -> (r: String)
    ensures
        r@ == cs@,
{
    let mut out: String = String::new();
    let mut i: usize = 0;
    while i < cs.len()
        invariant
            i <= cs.len(),
            out@ == cs@.take(i as int),
        decreases cs.len() - i,
    {
        out.push(cs[i]);
        i += 1;
    }
    out
}

/// Copy of the characters from `from` up to (not including) `to`.
pub fn slice_chars(cs: &[char], from: usize, to: usize) -> (r: Vec<char>)
    requires
        from <= to <= cs.len(),
    ensures
        r@ == cs@.subrange(from as int, to as int),
{
    let mut out: Vec<char> = Vec::new();
    let mut i: usize = from;
    while i < to
        invariant
            from <= i <= to <= cs.len(),
            out@ == cs@.subrange(from as int, i as int),
        decreases to - i,
    {
        out.push(cs[i]);
        i += 1;
    }
    out
}

/// Equality of two texts.
pub fn same_chars(a: &[char], b: &[char]) -> (r: bool)
    ensures
        r == (a@ == b@),
{
    if a.len() != b.len() {
        return false;
    }
    let mut i: usize = 0;
    while i < a.len()
        invariant
            i <= a.len(),
            a.len() == b.len(),
            forall|k: int| 0 <= k < i ==> a@[k] == b@[k],
        decreases a.len() - i,
    {
        if a[i] != b[i] {
            assert(a@[i as int] != b@[i as int]);
            return false;
        }
        i += 1;
    }
    assert(a@ =~= b@);
    true
}

/// Equality of two strings.
pub fn same_str(a: &str, b: &str) -> (r: bool)
    ensures
        r == (a@ == b@),
{
    let ca = chars_of(a);
    let cb = chars_of(b);
    same_chars(ca.as_slice(), cb.as_slice())
}

/// Two strings one after the other.
pub fn join2(a: &str, b: &str) -> (r: String)
    ensures
        r@ == a@ + b@,
{
    let mut out: String = a.to_owned();
    out.append(b);
    out
}

/// Three strings one after the other.
pub fn join3(a: &str, b: &str, c: &str) -> (r: String)
    ensures
        r@ == a@ + b@ + c@,
{
    let mut out: String = a.to_owned();
    out.append(b);
    out.append(c);
    out
}

// ---------------------------------------------------------------------------
// White space
// ---------------------------------------------------------------------------

/// The characters with the Unicode property `White_Space`.
pub open spec fn is_white(c: char) -> bool {
    let v = c as u32;
    ||| 0x09 <= v <= 0x0D
    ||| v == 0x20
    ||| v == 0x85
    ||| v == 0xA0
    ||| v == 0x1680
    ||| 0x2000 <= v <= 0x200A
    ||| v == 0x2028
    ||| v == 0x2029
    ||| v == 0x202F
    ||| v == 0x205F
    ||| v == 0x3000
}

/// The text without its leading white space.
pub open spec fn trim_left(s: Seq<char>) -> Seq<char>
    decreases s.len(),
{
    if s.len() > 0 && is_white(s[0]) {
        trim_left(s.drop_first())
    } else {
        s
    }
}

/// The text without its trailing white space.
pub open spec fn trim_right(s: Seq<char>) -> Seq<char>
    decreases s.len(),
{
    if s.len() > 0 && is_white(s.last()) {
        trim_right(s.drop_last())
    } else {
        s
    }
}

/// The text without white space at either end.
pub open spec fn trim(s: Seq<char>) -> Seq<char> {
    trim_right(trim_left(s))
}

/// Whether the character is white space.
pub fn white(c: char) -> (r: bool)
    ensures
        r == is_white(c),
{
    let v: u32 = c as u32;
    (0x09 <= v && v <= 0x0D) || v == 0x20 || v == 0x85 || v == 0xA0 || v == 0x1680 || (0x2000 <= v
        && v <= 0x200A) || v == 0x2028 || v == 0x2029 || v == 0x202F || v == 0x205F || v == 0x3000
}

/// Removes white space at both ends.
pub fn trim_chars(cs: &[char]) -> (r: Vec<char>)
    ensures
        r@ == trim(cs@),
{
    let mut from: usize = 0;
    assert(cs@.subrange(0, cs@.len() as int) =~= cs@);
    while from < cs.len() && white(cs[from])
        invariant
            from <= cs.len(),
            trim_left(cs@) == trim_left(cs@.subrange(from as int, cs@.len() as int)),
        decreases cs.len() - from,
    {
        assert(cs@.subrange(from as int, cs@.len() as int).drop_first() =~= cs@.subrange(
            from + 1,
            cs@.len() as int,
        ));
        from += 1;
    }
    let ghost kept = cs@.subrange(from as int, cs@.len() as int);
    assert(trim_left(cs@) == kept);
    let mut to: usize = cs.len();
    while to > from && white(cs[to - 1])
        invariant
            from <= to <= cs.len(),
            trim_right(kept) == trim_right(cs@.subrange(from as int, to as int)),
        decreases to - from,
    {
        assert(cs@.subrange(from as int, to as int).drop_last() =~= cs@.subrange(
            from as int,
            to - 1,
        ));
        to -= 1;
    }
    slice_chars(cs, from, to)
}

// ---------------------------------------------------------------------------
// Searching
// ---------------------------------------------------------------------------

/// `needle` stands in `hay` at position `i`.
pub open spec fn stands_at(hay: Seq<char>, needle: Seq<char>, i: int) -> bool {
    0 <= i <= hay.len() - needle.len() && hay.subrange(i, i + needle.len()) == needle
}

/// `needle` stands somewhere in `hay`.
pub open spec fn has_sub(hay: Seq<char>, needle: Seq<char>) -> bool {
    exists|i: int| stands_at(hay, needle, i)
}

/// Whether `needle` stands in `hay` at position `i`.
pub fn found_at(hay: &[char], needle: &[char], i: usize) -> (r: bool)
    ensures
        r == stands_at(hay@, needle@, i as int),
{
    if i > hay.len() || needle.len() > hay.len() - i {
        return false;
    }
    let mut k: usize = 0;
    while k < needle.len()
        invariant
            k <= needle.len(),
            i + needle.len() <= hay.len(),
            forall|j: int| 0 <= j < k ==> hay@[i + j] == needle@[j],
        decreases needle.len() - k,
    {
        if hay[i + k] != needle[k] {
            assert(hay@.subrange(i as int, i + needle@.len())[k as int] != needle@[k as int]);
            return false;
        }
        k += 1;
    }
    assert(hay@.subrange(i as int, i + needle@.len()) =~= needle@);
    true
}

/// Whether `needle` stands somewhere in `hay`.
pub fn contains_chars(hay: &[char], needle: &[char]) -> (r: bool)
    ensures
        r == has_sub(hay@, needle@),
{
    if needle.len() > hay.len() {
        return false;
    }
    let last: usize = hay.len() - needle.len();
    let mut i: usize = 0;
    while i <= last
        invariant
            last == hay.len() - needle.len(),
            0 <= i <= last + 1,
            forall|j: int| 0 <= j < i ==> !stands_at(hay@, needle@, j),
        decreases last + 1 - i,
    {
        if found_at(hay, needle, i) {
            return true;
        }
        if i == last {
            assert(forall|j: int| !stands_at(hay@, needle@, j)) by {
                assert forall|j: int| !stands_at(hay@, needle@, j) by {
                    if 0 <= j < i {
                    } else if j == i {
                    } else {
                    }
                }
            }
            return false;
        }
        i += 1;
    }
    false
}

/// Whether the text begins with `head`.
pub fn begins_with(s: &[char], head: &[char]) -> (r: bool)
    ensures
        r == head@.is_prefix_of(s@),
{
    let r = found_at(s, head, 0);
    if head.len() <= s.len() {
        assert(s@.subrange(0, head@.len() as int) =~= s@.take(head@.len() as int));
    }
    r
}

/// Whether the text ends with `tail`.
pub fn finishes_with(s: &[char], tail: &[char]) -> (r: bool)
    ensures
        r == tail@.is_suffix_of(s@),
{
    if tail.len() > s.len() {
        return false;
    }
    found_at(s, tail, s.len() - tail.len())
}

// ---------------------------------------------------------------------------
// Splitting
// ---------------------------------------------------------------------------

/// Index of the first `sep`, or the length where there is none.
pub open spec fn first_index(s: Seq<char>, sep: char) -> nat
    decreases s.len(),
{
    if s.len() == 0 || s[0] == sep {
        0
    } else {
        1 + first_index(s.drop_first(), sep)
    }
}

/// The first separator is at most one past the end, and nothing before it is a
/// separator.
pub proof fn first_index_bound(s: Seq<char>, sep: char)
    ensures
        first_index(s, sep) <= s.len(),
        first_index(s, sep) < s.len() ==> s[first_index(s, sep) as int] == sep,
        forall|k: int| 0 <= k < first_index(s, sep) ==> s[k] != sep,
    decreases s.len(),
{
    if s.len() > 0 && s[0] != sep {
        first_index_bound(s.drop_first(), sep);
        assert forall|k: int| 0 <= k < first_index(s, sep) implies s[k] != sep by {
            if k > 0 {
                assert(s.drop_first()[k - 1] == s[k]);
            }
        }
    }
}

/// The pieces between separators; a text without separator is one piece.
pub open spec fn split(s: Seq<char>, sep: char) -> Seq<Seq<char>>
    decreases s.len(),
{
    let k = first_index(s, sep) as int;
    if k >= s.len() {
        seq![s]
    } else {
        seq![s.take(k)] + split(s.skip(k + 1), sep)
    }
}

/// The views of a list of character vectors.
pub open spec fn views(v: Seq<Vec<char>>) -> Seq<Seq<char>> {
    v.map_values(|c: Vec<char>| c@)
}

/// The texts of a list of string slices.
pub open spec fn texts(s: Seq<&str>) -> Seq<Seq<char>> {
    s.map_values(|x: &str| x@)
}

/// Splits at every `sep`.
pub fn split_chars(cs: &[char], sep: char) -> (r: Vec<Vec<char>>)
    ensures
        views(r@) == split(cs@, sep),
{
    let mut out: Vec<Vec<char>> = Vec::new();
    let mut from: usize = 0;
    let mut i: usize = 0;
    assert(cs@.skip(0) =~= cs@);
    while i < cs.len()
        invariant
            from <= i <= cs.len(),
            forall|k: int| from <= k < i ==> cs@[k] != sep,
            split(cs@, sep) == views(out@) + split(cs@.skip(from as int), sep),
        decreases cs.len() - i,
    {
        if cs[i] == sep {
            let ghost rest = cs@.skip(from as int);
            proof {
                first_index_bound(rest, sep);
                let k = first_index(rest, sep) as int;
                assert(rest[i - from] == sep);
                assert(k <= i - from);
                assert(k == i - from) by {
                    if k < i - from {
                        assert(rest[k] == cs@[from + k]);
                    }
                }
                assert(rest.take(k) =~= cs@.subrange(from as int, i as int));
                assert(rest.skip(k + 1) =~= cs@.skip(i + 1));
            }
            let piece = slice_chars(cs, from, i);
            let ghost before = views(out@);
            out.push(piece);
            assert(views(out@) =~= before.push(piece@));
            assert(before + (seq![piece@] + split(cs@.skip(i + 1), sep)) =~= before.push(piece@)
                + split(cs@.skip(i + 1), sep));
            from = i + 1;
        }
        i += 1;
    }
    let piece = slice_chars(cs, from, cs.len());
    proof {
        let rest = cs@.skip(from as int);
        first_index_bound(rest, sep);
        let k = first_index(rest, sep) as int;
        if k < rest.len() {
            assert(rest[k] == cs@[from + k]);
        }
        assert(rest =~= piece@);
    }
    let ghost before = views(out@);
    out.push(piece);
    assert(views(out@) =~= before + seq![piece@]);
    out
}

// ---------------------------------------------------------------------------
// UTF-16
// ---------------------------------------------------------------------------

/// A high (leading) surrogate.
pub open spec fn is_high(u: u16) -> bool {
    0xD800 <= u <= 0xDBFF
}

/// A low (trailing) surrogate.
pub open spec fn is_low(u: u16) -> bool {
    0xDC00 <= u <= 0xDFFF
}

/// The UTF-16 units of one character: itself below `0x10000`, else a pair.
pub open spec fn units_of_char(c: char) -> Seq<u16> {
    let v = c as u32;
    if v < 0x10000 {
        seq![v as u16]
    } else {
        seq![(0xD800 + (v - 0x10000) / 0x400) as u16, (0xDC00 + (v - 0x10000) % 0x400) as u16]
    }
}

/// The UTF-16 units of a text.
pub open spec fn utf16(s: Seq<char>) -> Seq<u16>
    decreases s.len(),
{
    if s.len() == 0 {
        Seq::empty()
    } else {
        units_of_char(s[0]) + utf16(s.drop_first())
    }
}

/// The character of a surrogate pair.
pub open spec fn paired(h: u16, l: u16) -> char {
    (0x10000 + (h - 0xD800) * 0x400 + (l - 0xDC00)) as char
}

/// The text of UTF-16 units from index `i` on; each unpaired surrogate reads
/// as U+FFFD.
pub open spec fn lossy_from(u: Seq<u16>, i: int) -> Seq<char>
    decreases u.len() - i,
{
    if i < 0 || i >= u.len() {
        Seq::empty()
    } else if is_high(u[i]) && i + 1 < u.len() && is_low(u[i + 1]) {
        seq![paired(u[i], u[i + 1])] + lossy_from(u, i + 2)
    } else if is_high(u[i]) || is_low(u[i]) {
        seq!['\u{FFFD}'] + lossy_from(u, i + 1)
    } else {
        seq![u[i] as char] + lossy_from(u, i + 1)
    }
}

/// The text of UTF-16 units; each unpaired surrogate reads as U+FFFD.
pub open spec fn lossy(u: Seq<u16>) -> Seq<char> {
    lossy_from(u, 0)
}

/// Encodes a string as UTF-16.
pub fn units_of(s: &str) -> (r: Vec<u16>)
    ensures
        r@ == utf16(s@),
{
    let cs = chars_of(s);
    let mut out: Vec<u16> = Vec::new();
    let mut i: usize = 0;
    assert(cs@.skip(0) =~= cs@);
    while i < cs.len()
        invariant
            i <= cs.len(),
            utf16(cs@) == out@ + utf16(cs@.skip(i as int)),
        decreases cs.len() - i,
    {
        let c: char = cs[i];
        let ghost before = out@;
        proof {
            vstd::utf8::char_is_scalar(c);
            assert(cs@.skip(i as int).drop_first() =~= cs@.skip(i + 1));
        }
        let v: u32 = c as u32;
        if v < 0x10000 {
            out.push(v as u16);
        } else {
            let w: u32 = v - 0x10000;
            out.push((0xD800 + w / 0x400) as u16);
            out.push((0xDC00 + w % 0x400) as u16);
        }
        assert(out@ =~= before + units_of_char(c));
        assert(before + (units_of_char(c) + utf16(cs@.skip(i + 1))) =~= out@ + utf16(
            cs@.skip(i + 1),
        ));
        i += 1;
    }
    assert(utf16(cs@) =~= out@);
    out
}

/// Decoding does not depend on what stands before the starting index.
proof fn lossy_shift(a: Seq<u16>, b: Seq<u16>, i: int)
    requires
        0 <= i <= b.len(),
    ensures
        lossy_from(a + b, a.len() + i) == lossy_from(b, i),
    decreases b.len() - i,
{
    if i < b.len() {
        assert((a + b)[a.len() + i] == b[i]);
        if i + 1 < b.len() {
            assert((a + b)[a.len() + i + 1] == b[i + 1]);
            lossy_shift(a, b, i + 2);
        }
        lossy_shift(a, b, i + 1);
    }
}

/// Decodes UTF-16, reading each unpaired surrogate as U+FFFD.
pub fn lossy_chars(u: &[u16]) -> (r: Vec<char>)
    ensures
        r@ == lossy(u@),
{
    let mut out: Vec<char> = Vec::new();
    let mut i: usize = 0;
    while i < u.len()
        invariant
            i <= u.len(),
            lossy(u@) == out@ + lossy_from(u@, i as int),
        decreases u.len() - i,
    {
        let a: u16 = u[i];
        let ghost before = out@;
        if 0xD800 <= a && a <= 0xDBFF && i + 1 < u.len() && 0xDC00 <= u[i + 1] && u[i + 1]
            <= 0xDFFF {
            let b: u16 = u[i + 1];
            let v: u32 = 0x10000 + (a as u32 - 0xD800) * 0x400 + (b as u32 - 0xDC00);
            let c: char = match char::from_u32(v) {
                Some(c) => c,
                None => '\u{FFFD}',
            };
            proof {
                vstd::utf8::char_u32_cast(c, v);
            }
            assert(c == paired(a, b));
            out.push(c);
            assert(before + (seq![c] + lossy_from(u@, i + 2)) =~= out@ + lossy_from(u@, i + 2));
            i += 2;
        } else if 0xD800 <= a && a <= 0xDFFF {
            out.push('\u{FFFD}');
            assert(before + (seq!['\u{FFFD}'] + lossy_from(u@, i + 1)) =~= out@ + lossy_from(
                u@,
                i + 1,
            ));
            i += 1;
        } else {
            let c: char = match char::from_u32(a as u32) {
                Some(c) => c,
                None => '\u{FFFD}',
            };
            proof {
                vstd::utf8::char_u32_cast(c, a as u32);
            }
            assert(c == a as char);
            out.push(c);
            assert(before + (seq![c] + lossy_from(u@, i + 1)) =~= out@ + lossy_from(u@, i + 1));
            i += 1;
        }
    }
    assert(lossy(u@) =~= out@);
    out
}

/// Decodes UTF-16 into a string, reading each unpaired surrogate as U+FFFD.
pub fn lossy_string(u: &[u16]) -> (r: String)
    ensures
        r@ == lossy(u@),
{
    let cs = lossy_chars(u);
    string_of(cs.as_slice())
}

/// Text that was encoded as UTF-16 reads back unchanged.
pub proof fn utf16_reads_back(s: Seq<char>)
    ensures
        lossy(utf16(s)) == s,
    decreases s.len(),
{
    if s.len() > 0 {
        let c = s[0];
        let head = units_of_char(c);
        let tail = utf16(s.drop_first());
        let u = head + tail;
        utf16_reads_back(s.drop_first());
        vstd::utf8::char_is_scalar(c);
        lossy_shift(head, tail, 0);
        let v = c as u32;
        if v < 0x10000 {
            assert(u[0] == v as u16);
            vstd::utf8::char_u32_cast(c, v);
            assert(u[0] as char == c);
        } else {
            let w = v - 0x10000;
            assert(u[0] == 0xD800 + w / 0x400);
            assert(u[1] == 0xDC00 + w % 0x400);
            assert(w == (w / 0x400) * 0x400 + w % 0x400);
            vstd::utf8::char_u32_cast(c, v);
            assert(paired(u[0], u[1]) == c);
        }
        assert(seq![c] + s.drop_first() =~= s);
    }
}

// ---------------------------------------------------------------------------
// Decimal numbers
// ---------------------------------------------------------------------------

/// The decimal digit of a value below ten.
pub open spec fn digit(d: nat) -> char {
    ('0' as u32 + d) as char
}

/// The decimal digits of a number, without leading zeros.
pub open spec fn decimal(n: nat) -> Seq<char>
    decreases n,
{
    if n < 10 {
        seq![digit(n)]
    } else {
        decimal(n / 10).push(digit(n % 10))
    }
}

/// Writes a number in decimal.
pub fn decimal_chars(n: u64) -> (r: Vec<char>)
    ensures
        r@ == decimal(n as nat),
    decreases n,
{
    let d: u8 = (n % 10) as u8;
    let c: char = (48 + d) as char;
    assert(c == digit((n % 10) as nat));
    if n < 10 {
        let mut out: Vec<char> = Vec::new();
        out.push(c);
        assert(out@ =~= decimal(n as nat));
        out
    } else {
        let mut out = decimal_chars(n / 10);
        out.push(c);
        out
    }
}

/// A number in decimal, as a string.
pub fn decimal_string(n: u64) -> (r: String)
    ensures
        r@ == decimal(n as nat),
{
    let cs = decimal_chars(n);
    string_of(cs.as_slice())
}

// ---------------------------------------------------------------------------
// UTF-8
// ---------------------------------------------------------------------------

/// What `String::from_utf8_lossy` makes of bytes.
pub uninterp spec fn utf8_lossy(b: Seq<u8>) -> Seq<char>;

/// `String::from_utf8_lossy` decodes UTF-8: valid bytes give exactly the text
/// they encode. What takes the place of invalid bytes is not spelled out; it
/// depends on the bytes alone.
#[verifier::external_body]
pub(crate) fn utf8_lossy_string(b: &[u8]) -> (r: String)
    ensures
        r@ == utf8_lossy(b@),
        vstd::utf8::valid_utf8(b@) ==> r@ == vstd::utf8::decode_utf8(b@),
{
    String::from_utf8_lossy(b).into_owned()
}

/// `String::from_utf8` returns the text that valid UTF-8 encodes, and an error
/// for any other bytes.
#[verifier::external_body]
pub(crate) fn utf8_string(b: Vec<u8>) -> (r: Option<String>)
    ensures
        r is Some <==> vstd::utf8::valid_utf8(b@),
        r matches Some(s) ==> s@ == vstd::utf8::decode_utf8(b@),
{
    String::from_utf8(b).ok()
}

// ---------------------------------------------------------------------------
// Hexadecimal numbers
// ---------------------------------------------------------------------------

/// The lower-case hexadecimal digit of a value below sixteen.
pub open spec fn hex_digit(d: nat) -> char {
    if d < 10 {
        ('0' as u32 + d) as char
    } else {
        ('a' as u32 + d - 10) as char
    }
}

/// The hexadecimal digits of a number, without leading zeros.
pub open spec fn hex(n: nat) -> Seq<char>
    decreases n,
{
    if n < 16 {
        seq![hex_digit(n)]
    } else {
        hex(n / 16).push(hex_digit(n % 16))
    }
}

/// Writes a number in hexadecimal.
pub fn hex_chars(n: u64) -> (r: Vec<char>)
    ensures
        r@ == hex(n as nat),
    decreases n,
{
    let d: u8 = (n % 16) as u8;
    let c: char = if d < 10 {
        (48 + d) as char
    } else {
        (87 + d) as char
    };
    assert(c == hex_digit((n % 16) as nat));
    if n < 16 {
        let mut out: Vec<char> = Vec::new();
        out.push(c);
        assert(out@ =~= hex(n as nat));
        out
    } else {
        let mut out = hex_chars(n / 16);
        out.push(c);
        out
    }
}

/// A number in hexadecimal, as a string.
pub fn hex_string(n: u64) -> (r: String)
    ensures
        r@ == hex(n as nat),
{
    let cs = hex_chars(n);
    string_of(cs.as_slice())
}

// ---------------------------------------------------------------------------
// Laws
// ---------------------------------------------------------------------------

/// Lower case changes the letters `A` to `Z` alone, by 32 places.
pub proof fn only_capital_letters_change(cs: &[char], r: Vec<char>, c: u16, d: u16)
    requires
        call_ensures(to_lower, (cs,), r),
        call_ensures(lower_ascii_u16, (c,), d),
    ensures
        r@.len() == cs@.len(),
        forall|i: int|
            #![trigger r@[i]]
            0 <= i < r@.len() ==> (65 <= cs@[i] as int && cs@[i] as int <= 90 ==> r@[i] as int
                == cs@[i] as int + 32) && ((cs@[i] as int) < 65 || cs@[i] as int > 90 ==> r@[i]
                == cs@[i]),
        65 <= c <= 90 ==> d == c + 32,
        c < 65 || c > 90 ==> d == c,
{
}

/// What trimming leaves: a stretch of the text that neither begins nor ends with
/// white space, with nothing but white space around it.
pub proof fn only_white_space_is_trimmed(s: Seq<char>) -> (at: int)
    ensures
        0 <= at,
        at + trim(s).len() <= s.len(),
        trim(s) == s.subrange(at, at + trim(s).len()),
        forall|i: int| 0 <= i < at ==> is_white(#[trigger] s[i]),
        forall|i: int| at + trim(s).len() <= i < s.len() ==> is_white(#[trigger] s[i]),
        trim(s).len() > 0 ==> !is_white(trim(s)[0]) && !is_white(trim(s).last()),
{
    left_is_trimmed(s);
    let t = trim_left(s);
    right_is_trimmed(t);
    let at = s.len() - t.len();
    let r = trim(s);
    assert(r =~= s.subrange(at, at + r.len()));
    assert forall|i: int| at + r.len() <= i < s.len() implies is_white(#[trigger] s[i]) by {
        assert(t[i - at] == s[i]);
    }
    if r.len() > 0 {
        assert(r[0] == t[0]);
    }
    at
}

proof fn left_is_trimmed(s: Seq<char>)
    ensures
        trim_left(s).len() <= s.len(),
        trim_left(s) == s.skip(s.len() - trim_left(s).len()),
        forall|i: int| 0 <= i < s.len() - trim_left(s).len() ==> is_white(#[trigger] s[i]),
        trim_left(s).len() > 0 ==> !is_white(trim_left(s)[0]),
    decreases s.len(),
{
    if s.len() > 0 && is_white(s[0]) {
        let t = s.drop_first();
        left_is_trimmed(t);
        let n = s.len() - trim_left(s).len();
        assert(t.skip(n - 1) =~= s.skip(n));
        assert forall|i: int| 0 <= i < n implies is_white(#[trigger] s[i]) by {
            if i > 0 {
                assert(t[i - 1] == s[i]);
            }
        }
    } else {
        assert(s.skip(0) =~= s);
    }
}

proof fn right_is_trimmed(s: Seq<char>)
    ensures
        trim_right(s).len() <= s.len(),
        trim_right(s) == s.take(trim_right(s).len() as int),
        forall|i: int| trim_right(s).len() <= i < s.len() ==> is_white(#[trigger] s[i]),
        trim_right(s).len() > 0 ==> !is_white(trim_right(s).last()),
    decreases s.len(),
{
    if s.len() > 0 && is_white(s.last()) {
        let t = s.drop_last();
        right_is_trimmed(t);
        let n = trim_right(s).len() as int;
        assert(t.take(n) =~= s.take(n));
        assert forall|i: int| n <= i < s.len() implies is_white(#[trigger] s[i]) by {
            if i < s.len() - 1 {
                assert(t[i] == s[i]);
            }
        }
    } else {
        assert(s.take(s.len() as int) =~= s);
    }
}

/// A text holds another where the other's characters stand in it one behind the
/// other, somewhere.
pub proof fn a_part_stands_somewhere(hay: &[char], needle: &[char], r: bool, i: int)
    requires
        call_ensures(contains_chars, (hay, needle), r),
    ensures
        0 <= i && i + needle@.len() <= hay@.len() && (forall|k: int|
            0 <= k < needle@.len() ==> hay@[i + k] == #[trigger] needle@[k]) ==> r,
        r ==> exists|j: int|
            #![trigger hay@.skip(j)]
            0 <= j && j + needle@.len() <= hay@.len() && hay@.skip(j).take(needle@.len() as int)
                == needle@,
{
    if 0 <= i && i + needle@.len() <= hay@.len() && (forall|k: int|
        0 <= k < needle@.len() ==> hay@[i + k] == #[trigger] needle@[k]) {
        assert(hay@.subrange(i, i + needle@.len()) =~= needle@);
        assert(stands_at(hay@, needle@, i));
    }
    if r {
        let j = choose|j: int| stands_at(hay@, needle@, j);
        assert(hay@.skip(j).take(needle@.len() as int) =~= hay@.subrange(j, j + needle@.len()));
    }
}

/// Pieces with a separator between them.
pub open spec fn with_between(pieces: Seq<Seq<char>>, sep: char) -> Seq<char>
    decreases pieces.len(),
{
    if pieces.len() == 0 {
        Seq::empty()
    } else if pieces.len() == 1 {
        pieces[0]
    } else {
        pieces[0].push(sep) + with_between(pieces.drop_first(), sep)
    }
}

/// The pieces of a text, with the separator put back between them, are the text;
/// none of them holds the separator, and there is at least one.
pub proof fn pieces_make_the_text(s: Seq<char>, sep: char)
    ensures
        split(s, sep).len() >= 1,
        with_between(split(s, sep), sep) == s,
        forall|i: int| 0 <= i < split(s, sep).len() ==> !(#[trigger] split(s, sep)[i]).contains(sep),
    decreases s.len(),
{
    first_index_bound(s, sep);
    let k = first_index(s, sep) as int;
    let all = split(s, sep);
    if k < s.len() {
        let rest = s.skip(k + 1);
        pieces_make_the_text(rest, sep);
        assert(all.drop_first() =~= split(rest, sep));
        assert(s[k] == sep);
        assert(s.take(k).push(sep) + rest =~= s);
        assert forall|i: int| 0 <= i < all.len() implies !(#[trigger] all[i]).contains(sep) by {
            if i > 0 {
                assert(all[i] == split(rest, sep)[i - 1]);
            } else {
                assert(all[0] == s.take(k));
            }
        }
    }
}

/// The number that decimal digits write.
pub open spec fn read_decimal(s: Seq<char>) -> int
    decreases s.len(),
{
    if s.len() == 0 {
        0
    } else {
        10 * read_decimal(s.drop_last()) + (s.last() as int - 48)
    }
}

/// A number in decimal reads back as the number, is made of digits alone, and
/// begins with no zero unless it is zero.
pub proof fn decimals_read_back(n: nat)
    ensures
        read_decimal(decimal(n)) == n,
        decimal(n).len() >= 1,
        forall|i: int|
            0 <= i < decimal(n).len() ==> 48 <= (#[trigger] decimal(n)[i]) as int && decimal(
                n,
            )[i] as int <= 57,
        n > 0 ==> decimal(n)[0] as int != 48,
        n == 0 ==> decimal(n).len() == 1,
    decreases n,
{
    let s = decimal(n);
    if n < 10 {
        assert(s.last() as int == 48 + n);
        assert(read_decimal(s.drop_last()) == 0);
    } else {
        decimals_read_back(n / 10);
        assert(s.drop_last() =~= decimal(n / 10));
        assert(s.last() as int == 48 + n % 10);
        assert forall|i: int| 0 <= i < s.len() implies 48 <= (#[trigger] s[i]) as int && s[i] as int
            <= 57 by {
            if i < s.len() - 1 {
                assert(decimal(n / 10)[i] == s[i]);
            }
        }
        assert(s[0] == decimal(n / 10)[0]);
    }
}

/// The value of a hexadecimal digit in lower case.
pub open spec fn hex_value(c: char) -> int {
    if c as int <= 57 {
        c as int - 48
    } else {
        c as int - 87
    }
}

/// The number that hexadecimal digits write.
pub open spec fn read_hex(s: Seq<char>) -> int
    decreases s.len(),
{
    if s.len() == 0 {
        0
    } else {
        16 * read_hex(s.drop_last()) + hex_value(s.last())
    }
}

/// A number in hexadecimal reads back as the number, with digits and the letters
/// `a` to `f` alone, and begins with no zero unless it is zero.
pub proof fn hexadecimals_read_back(n: nat)
    ensures
        read_hex(hex(n)) == n,
        hex(n).len() >= 1,
        forall|i: int|
            0 <= i < hex(n).len() ==> (48 <= (#[trigger] hex(n)[i]) as int && hex(n)[i] as int
                <= 57) || (97 <= hex(n)[i] as int && hex(n)[i] as int <= 102),
        n > 0 ==> hex(n)[0] as int != 48,
        n == 0 ==> hex(n).len() == 1,
    decreases n,
{
    let s = hex(n);
    if n < 16 {
        assert(hex_value(s.last()) == n);
        assert(read_hex(s.drop_last()) == 0);
    } else {
        hexadecimals_read_back(n / 16);
        assert(s.drop_last() =~= hex(n / 16));
        assert(hex_value(s.last()) == n % 16);
        assert forall|i: int| 0 <= i < s.len() implies (48 <= (#[trigger] s[i]) as int && s[i] as int
            <= 57) || (97 <= s[i] as int && s[i] as int <= 102) by {
            if i < s.len() - 1 {
                assert(hex(n / 16)[i] == s[i]);
            }
        }
        assert(s[0] == hex(n / 16)[0]);
    }
}

/// Units without a pair among them read one for one: a surrogate as U+FFFD, any
/// other unit as the character of its number.
pub proof fn unpaired_surrogates_are_replaced(u: Seq<u16>)
    requires
        forall|i: int|
            0 <= i < u.len() - 1 ==> !(0xD800 <= #[trigger] u[i] <= 0xDBFF && 0xDC00 <= u[i + 1]
                <= 0xDFFF),
    ensures
        lossy(u).len() == u.len(),
        forall|i: int|
            #![trigger u[i]]
            0 <= i < u.len() ==> lossy(u)[i] as int == (if 0xD800 <= u[i] <= 0xDFFF {
                0xFFFD
            } else {
                u[i] as int
            }),
{
    unpaired_from(u, 0);
}

proof fn unpaired_from(u: Seq<u16>, from: int)
    requires
        0 <= from <= u.len(),
        forall|i: int|
            0 <= i < u.len() - 1 ==> !(0xD800 <= #[trigger] u[i] <= 0xDBFF && 0xDC00 <= u[i + 1]
                <= 0xDFFF),
    ensures
        lossy_from(u, from).len() == u.len() - from,
        forall|i: int|
            #![trigger u[i]]
            from <= i < u.len() ==> lossy_from(u, from)[i - from] as int == (if 0xD800 <= u[i]
                <= 0xDFFF {
                0xFFFD
            } else {
                u[i] as int
            }),
    decreases u.len() - from,
{
    if from < u.len() {
        unpaired_from(u, from + 1);
        let rest = lossy_from(u, from + 1);
        let all = lossy_from(u, from);
        assert(all.drop_first() =~= rest);
        assert forall|i: int| #![trigger u[i]] from <= i < u.len() implies all[i - from] as int == (
        if 0xD800 <= u[i] <= 0xDFFF {
            0xFFFD
        } else {
            u[i] as int
        }) by {
            if i > from {
                assert(all[i - from] == rest[i - (from + 1)]);
            }
        }
    }
}

/// White space: tab to carriage return, the space, next line, the no-break
/// space, and the spaces and separators of other scripts.
pub proof fn white_space_is_known(c: char, r: bool)
    requires
        call_ensures(white, (c,), r),
    ensures
        (c as int) < 128 ==> (r <==> c == ' ' || c == '\t' || c == '\n' || c == '\r' || c as int
            == 11 || c as int == 12),
        128 <= (c as int) < 0x1000 ==> (r <==> c as int == 133 || c as int == 160),
        0x1000 <= (c as int) < 0x3000 ==> (r <==> c as int == 5760 || 8192 <= (c as int) <= 8202 || c
            as int == 8232 || c as int == 8233 || c as int == 8239 || c as int == 8287),
        0x3000 <= (c as int) ==> (r <==> c as int == 12288),
{
}

} // verus!
