//! Icons as `data:` URLs: pixel order, PNG, base64.
use vstd::prelude::*;

use crate::text;

verus! {

/// The file that the PNG encoder writes for RGBA pixels of eight bits a
/// channel, top row first; `None` where it refuses them.
pub uninterp spec fn png_file(rgba: Seq<u8>, width: u32, height: u32) -> Option<Seq<u8>>;

/// `png::Encoder` with colour type RGBA and bit depth eight, `write_header` and
/// `write_image_data` into a vector.
///
/// The file is a function of the pixels and the two dimensions. The encoder
/// refuses a dimension of 0 and pixels that do not fill the rectangle exactly,
/// and nothing else; its own arithmetic stays in range as long as the
/// rectangle, one byte more for each row, can be counted.
#[verifier::external_body]
fn encode_png(rgba: &[u8], width: u32, height: u32) -> (r: Option<Vec<u8>>)
    requires
        (4 * width + 1) * height <= usize::MAX,
    ensures
        r is Some <==> (width > 0 && height > 0 && rgba@.len() == 4 * width * height),
        png_file(rgba@, width, height) == (match r {
            Some(v) => Some(v@),
            None => None,
        }),
{
    let mut out = Vec::new();
    let mut encoder = png::Encoder::new(&mut out, width, height);
    encoder.set_color(png::ColorType::Rgba);
    encoder.set_depth(png::BitDepth::Eight);
    let mut writer = encoder.write_header().ok()?;
    writer.write_image_data(rgba).ok()?;
    drop(writer);
    Some(out)
}

// ---------------------------------------------------------------------------
// Pixel order
// ---------------------------------------------------------------------------

/// BGRA pixels as RGBA: in each group of four bytes the first and the third
/// change places. Bytes behind the last full group become 0.
pub open spec fn rgba_of(bgra: Seq<u8>) -> Seq<u8> {
    Seq::new(
        bgra.len(),
        |i: int|
            if i - i % 4 + 4 > bgra.len() {
                0u8
            } else if i % 4 == 0 {
                bgra[i + 2]
            } else if i % 4 == 2 {
                bgra[i - 2]
            } else {
                bgra[i]
            },
    )
}

/// Reorders the channels of each pixel.
pub fn to_rgba(bgra: &[u8]) -> (r: Vec<u8>)
    ensures
        r@ == rgba_of(bgra@),
{
    let n = bgra.len();
    let mut out: Vec<u8> = Vec::new();
    let mut i: usize = 0;
    while n - i >= 4
        invariant
            i <= n == bgra.len(),
            i % 4 == 0,
            out@ == rgba_of(bgra@).take(i as int),
        decreases n - i,
    {
        out.push(bgra[i + 2]);
        out.push(bgra[i + 1]);
        out.push(bgra[i]);
        out.push(bgra[i + 3]);
        assert(out@ =~= rgba_of(bgra@).take(i + 4));
        i += 4;
    }
    while i < n
        invariant
            i <= n == bgra.len(),
            i - i % 4 + 4 > n,
            out@ == rgba_of(bgra@).take(i as int),
        decreases n - i,
    {
        out.push(0);
        assert(out@ =~= rgba_of(bgra@).take(i + 1));
        i += 1;
    }
    out
}

/// Reordering full pixels twice gives the first order back.
pub proof fn reordering_twice_changes_nothing(bgra: Seq<u8>)
    requires
        bgra.len() % 4 == 0,
    ensures
        rgba_of(rgba_of(bgra)) == bgra,
{
    assert forall|i: int| 0 <= i < bgra.len() implies rgba_of(rgba_of(bgra))[i] == bgra[i] by {
        assert(i - i % 4 + 4 <= bgra.len());
        if i % 4 == 0 {
            assert((i + 2) % 4 == 2);
        } else if i % 4 == 2 {
            assert((i - 2) % 4 == 0);
        }
    }
    assert(rgba_of(rgba_of(bgra)) =~= bgra);
}

// ---------------------------------------------------------------------------
// Base64
// ---------------------------------------------------------------------------

/// The character of a value below 64.
pub open spec fn symbol(v: nat) -> char {
    if v < 26 {
        ('A' as u32 + v) as char
    } else if v < 52 {
        ('a' as u32 + (v - 26)) as char
    } else if v < 62 {
        ('0' as u32 + (v - 52)) as char
    } else if v == 62 {
        '+'
    } else {
        '/'
    }
}

/// Three bytes as four characters; `used` of the bytes are there, and `=`
/// stands for the characters that no byte reaches.
pub open spec fn quad(a: u8, b: u8, c: u8, used: nat) -> Seq<char> {
    seq![
        symbol((a / 4) as nat),
        symbol(((a % 4) * 16 + b / 16) as nat),
        if used > 1 {
            symbol(((b % 16) * 4 + c / 64) as nat)
        } else {
            '='
        },
        if used > 2 {
            symbol((c % 64) as nat)
        } else {
            '='
        },
    ]
}

/// Bytes in base64 with padding.
pub open spec fn base64(b: Seq<u8>) -> Seq<char>
    decreases b.len(),
{
    if b.len() == 0 {
        Seq::empty()
    } else if b.len() == 1 {
        quad(b[0], 0, 0, 1)
    } else if b.len() == 2 {
        quad(b[0], b[1], 0, 2)
    } else {
        quad(b[0], b[1], b[2], 3) + base64(b.skip(3))
    }
}

/// The character of a value below 64.
fn symbol_char(v: u8) -> (r: char)
    requires
        v < 64,
    ensures
        r == symbol(v as nat),
{
    if v < 26 {
        (65 + v) as char
    } else if v < 52 {
        (71 + v) as char
    } else if v < 62 {
        (v - 4) as char
    } else if v == 62 {
        '+'
    } else {
        '/'
    }
}

/// Writes bytes in base64.
pub fn base64_encode(b: &[u8]) -> (r: String)
    ensures
        r@ == base64(b@),
{
    let n = b.len();
    let mut out: Vec<char> = Vec::new();
    let mut i: usize = 0;
    assert(b@.skip(0) =~= b@);
    while i < n
        invariant
            i <= n == b.len(),
            base64(b@) == out@ + base64(b@.skip(i as int)),
        decreases n - i,
    {
        let used: usize = if n - i >= 3 {
            3
        } else {
            n - i
        };
        let x: u8 = b[i];
        let y: u8 = if used > 1 {
            b[i + 1]
        } else {
            0
        };
        let z: u8 = if used > 2 {
            b[i + 2]
        } else {
            0
        };
        let ghost before = out@;
        let ghost rest = b@.skip(i as int);
        out.push(symbol_char(x / 4));
        out.push(symbol_char((x % 4) * 16 + y / 16));
        if used > 1 {
            out.push(symbol_char((y % 16) * 4 + z / 64));
        } else {
            out.push('=');
        }
        if used > 2 {
            out.push(symbol_char(z % 64));
        } else {
            out.push('=');
        }
        let ghost four = quad(x, y, z, used as nat);
        assert(out@ =~= before + four);
        proof {
            assert(rest.skip(used as int) =~= b@.skip(i + used));
            assert(base64(rest) == four + base64(rest.skip(used as int))) by {
                if used < 3 {
                    assert(rest.skip(used as int) =~= Seq::<u8>::empty());
                    assert(four + base64(rest.skip(used as int)) =~= four);
                }
            }
            assert(before + (four + base64(rest.skip(used as int))) =~= (before + four) + base64(
                rest.skip(used as int),
            ));
        }
        i += used;
    }
    assert(b@.skip(n as int) =~= Seq::<u8>::empty());
    assert(out@ + Seq::<char>::empty() =~= out@);
    text::string_of(out.as_slice())
}

/// Base64 text stands in groups of four characters, one for each three bytes
/// begun.
pub proof fn base64_length(b: Seq<u8>)
    ensures
        base64(b).len() == 4 * ((b.len() + 2) / 3),
    decreases b.len(),
{
    if b.len() > 2 {
        base64_length(b.skip(3));
    }
}

// ---------------------------------------------------------------------------
// The icon
// ---------------------------------------------------------------------------

/// The most pixels an icon may have.
pub const ICON_PIXELS: u32 = 1048576;

/// The dimensions of an icon, from the signed size of its bitmap: the height
/// counts downwards. `None` where there is nothing to show or too much.
pub fn icon_size(bi_width: i32, bi_height: i32) -> (r: Option<(u32, u32)>)
    requires
        bi_height > i32::MIN,
    ensures
        r == (if bi_width > 0 && bi_height < 0 && bi_width * -bi_height <= ICON_PIXELS {
            Some((bi_width as u32, (-bi_height) as u32))
        } else {
            None
        }),
{
    if bi_width <= 0 || bi_height >= 0 {
        return None;
    }
    let w: u32 = bi_width as u32;
    let h: u32 = (-bi_height) as u32;
    proof {
        let wi = w as int;
        let hi = h as int;
        assert(0 <= wi * hi <= 0x7fff_ffff * 0x7fff_ffff) by (nonlinear_arith)
            requires
                0 <= wi <= 0x7fff_ffff,
                0 <= hi <= 0x7fff_ffff,
        ;
    }
    if w as u64 * h as u64 <= ICON_PIXELS as u64 {
        Some((w, h))
    } else {
        None
    }
}

/// A PNG file as a `data:` URL.
pub open spec fn png_url(file: Seq<u8>) -> Seq<char> {
    "data:image/png;base64,"@ + base64(file)
}

/// The URL of a PNG file.
pub fn data_url(file: &[u8]) -> (r: String)
    ensures
        r@ == png_url(file@),
{
    let body = base64_encode(file);
    text::join2("data:image/png;base64,", body.as_str())
}

/// BGRA pixels, top row first, as the URL of a PNG; `None` where they do not
/// fill a rectangle of that size.
pub fn bgra_to_png(bgra: &[u8], width: u32, height: u32) -> (r: Option<String>)
    requires
        (4 * width + 1) * height <= usize::MAX,
    ensures
        r is Some <==> (width > 0 && height > 0 && bgra@.len() == 4 * width * height),
        (match r {
            Some(u) => Some(u@),
            None => None,
        }) == (match png_file(rgba_of(bgra@), width, height) {
            Some(f) => Some(png_url(f)),
            None => None,
        }),
{
    let rgba = to_rgba(bgra);
    match encode_png(rgba.as_slice(), width, height) {
        Some(file) => Some(data_url(file.as_slice())),
        None => None,
    }
}

// ---------------------------------------------------------------------------
// Laws
// ---------------------------------------------------------------------------

/// Each pixel keeps its place, green and alpha; red and blue change places.
pub proof fn red_and_blue_change_places(bgra: &[u8], r: Vec<u8>, k: int)
    requires
        call_ensures(to_rgba, (bgra,), r),
        0 <= k,
        4 * k + 4 <= bgra@.len(),
    ensures
        r@.len() == bgra@.len(),
        r@[4 * k] == bgra@[4 * k + 2],
        r@[4 * k + 1] == bgra@[4 * k + 1],
        r@[4 * k + 2] == bgra@[4 * k],
        r@[4 * k + 3] == bgra@[4 * k + 3],
{
}

/// The value that a character of base64 stands for.
pub open spec fn sextet(c: char) -> int {
    let v = c as int;
    if 65 <= v <= 90 {
        v - 65
    } else if 97 <= v <= 122 {
        v - 71
    } else if 48 <= v <= 57 {
        v + 4
    } else if v == 43 {
        62
    } else {
        63
    }
}

/// A character reads back as its value.
proof fn symbols_read_back(v: nat)
    requires
        v < 64,
    ensures
        sextet(symbol(v)) == v,
        symbol(v) != '=',
{
}

/// Every three bytes are four characters that read back as the same 24 bits.
/// Where the last group has fewer bytes, `=` stands for each missing one, and the
/// other characters read back as what is there.
pub proof fn groups_read_back(b: Seq<u8>, k: int)
    requires
        0 <= k,
        3 * k < b.len(),
    ensures
        base64(b).len() >= 4 * k + 4,
        ({
            let s = base64(b);
            let first = 262144 * sextet(s[4 * k]) + 4096 * sextet(s[4 * k + 1]);
            &&& 3 * k + 2 < b.len() ==> first + 64 * sextet(s[4 * k + 2]) + sextet(s[4 * k + 3])
                == 65536 * b[3 * k] + 256 * b[3 * k + 1] + b[3 * k + 2] && s[4 * k + 2] != '='
                && s[4 * k + 3] != '='
            &&& 3 * k + 2 == b.len() ==> first + 64 * sextet(s[4 * k + 2]) == 65536 * b[3 * k] + 256
                * b[3 * k + 1] && s[4 * k + 2] != '=' && s[4 * k + 3] == '='
            &&& 3 * k + 1 == b.len() ==> first == 65536 * b[3 * k] && s[4 * k + 2] == '=' && s[4 * k
                + 3] == '='
        }),
    decreases k,
{
    let s = base64(b);
    if k == 0 {
        let x = b[0];
        let y: u8 = if b.len() > 1 {
            b[1]
        } else {
            0
        };
        let z: u8 = if b.len() > 2 {
            b[2]
        } else {
            0
        };
        symbols_read_back((x / 4) as nat);
        symbols_read_back(((x % 4) * 16 + y / 16) as nat);
        symbols_read_back(((y % 16) * 4 + z / 64) as nat);
        symbols_read_back((z % 64) as nat);
        let q = quad(
            x,
            y,
            z,
            if b.len() > 2 {
                3
            } else {
                b.len()
            },
        );
        assert(s.take(4) =~= q);
        assert(s[0] == q[0] && s[1] == q[1] && s[2] == q[2] && s[3] == q[3]);
    } else {
        let t = b.skip(3);
        groups_read_back(t, k - 1);
        let q = quad(b[0], b[1], b[2], 3);
        assert(q.len() == 4);
        assert(s == q + base64(t));
        let u = base64(t);
        assert(s[4 * k] == u[4 * (k - 1)]);
        assert(s[4 * k + 1] == u[4 * (k - 1) + 1]);
        assert(s[4 * k + 2] == u[4 * (k - 1) + 2]);
        assert(s[4 * k + 3] == u[4 * (k - 1) + 3]);
        assert(t[3 * (k - 1)] == b[3 * k]);
        if 3 * k + 1 < b.len() {
            assert(t[3 * (k - 1) + 1] == b[3 * k + 1]);
        }
        if 3 * k + 2 < b.len() {
            assert(t[3 * (k - 1) + 2] == b[3 * k + 2]);
        }
    }
}

/// An icon is shown where it has a width, counts its rows downwards and has no
/// more than 1048576 pixels.
pub proof fn an_icon_has_a_size(w: i32, h: i32, r: Option<(u32, u32)>)
    requires
        h > i32::MIN,
        call_ensures(icon_size, (w, h), r),
    ensures
        r is Some ==> w > 0 && h < 0 && w * -h <= 1048576,
        w > 0 && h < 0 && w * -h <= 1048576 ==> (r matches Some((a, b)) && a == w && b == -h),
{
}

/// The URL of a file is its base64 behind the marks of a PNG.
pub proof fn a_url_holds_its_file(file: &[u8], r: String, body: String)
    requires
        call_ensures(data_url, (file,), r),
        call_ensures(base64_encode, (file,), body),
    ensures
        r@ == "data:image/png;base64,"@ + body@,
{
}

} // verus!
