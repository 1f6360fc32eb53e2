//! Little-endian integers in byte buffers, and how a signed value reads.
use vstd::prelude::*;

verus! {

/// The number that the `n` bytes from `at` on spell, least significant first.
pub open spec fn le(b: Seq<u8>, at: int, n: nat) -> nat
    decreases n,
{
    if n == 0 {
        0
    } else {
        b[at] as nat + 256 * le(b, at + 1, (n - 1) as nat)
    }
}

/// The two bytes at `at` as a number.
pub fn u16_at(b: &[u8], at: usize) -> (r: u16)
    requires
        at + 2 <= b.len(),
    ensures
        r == le(b@, at as int, 2),
{
    proof {
        reveal_with_fuel(le, 3);
    }
    b[at] as u16 + 256 * (b[at + 1] as u16)
}

/// The four bytes at `at` as a number.
pub fn u32_at(b: &[u8], at: usize) -> (r: u32)
    requires
        at + 4 <= b.len(),
    ensures
        r == le(b@, at as int, 4),
{
    proof {
        reveal_with_fuel(le, 5);
    }
    b[at] as u32 + 256 * (b[at + 1] as u32 + 256 * (b[at + 2] as u32 + 256 * (b[at + 3] as u32)))
}

/// The eight bytes at `at` as a number.
pub fn u64_at(b: &[u8], at: usize) -> (r: u64)
    requires
        at + 8 <= b.len(),
    ensures
        r == le(b@, at as int, 8),
{
    let low = u32_at(b, at);
    let high = u32_at(b, at + 4);
    proof {
        reveal_with_fuel(le, 9);
    }
    low as u64 + 0x1_0000_0000 * (high as u64)
}

/// The signed number with the same 64 bits.
pub open spec fn signed(v: u64) -> int {
    if v <= i64::MAX {
        v as int
    } else {
        v - 0x1_0000_0000_0000_0000
    }
}

/// Reads 64 bits as a signed number.
pub fn to_signed(v: u64) -> (r: i64)
    ensures
        r == signed(v),
{
    if v <= i64::MAX as u64 {
        v as i64
    } else {
        -((u64::MAX - v) as i64) - 1
    }
}

/// How far from zero a number is.
pub open spec fn distance(v: int) -> nat {
    if v < 0 {
        (-v) as nat
    } else {
        v as nat
    }
}

/// The magnitude of the signed number with the given bits.
pub fn magnitude(v: u64) -> (r: u64)
    ensures
        r == distance(signed(v)),
{
    if v <= i64::MAX as u64 {
        v
    } else {
        u64::MAX - v + 1
    }
}

/// `n` bytes from `at` on, two to a unit.
pub open spec fn units(b: Seq<u8>, at: int, n: nat) -> Seq<u16> {
    Seq::new(n, |k: int| le(b, at + 2 * k, 2) as u16)
}

/// Reads `n` two-byte units.
pub fn units_at(b: &[u8], at: usize, n: usize) -> (r: Vec<u16>)
    requires
        at + 2 * n <= b.len(),
    ensures
        r@ == units(b@, at as int, n as nat),
{
    let mut out: Vec<u16> = Vec::new();
    let mut k: usize = 0;
    while k < n
        invariant
            k <= n,
            at + 2 * n <= b.len(),
            out@ == units(b@, at as int, k as nat),
        decreases n - k,
    {
        let u = u16_at(b, at + 2 * k);
        out.push(u);
        k += 1;
    }
    out
}

/// Numbers stand least significant byte first.
pub proof fn numbers_stand_low_byte_first(b: &[u8], at: usize, two: u16, four: u32, eight: u64)
    requires
        at + 8 <= b@.len(),
        call_ensures(u16_at, (b, at), two),
        call_ensures(u32_at, (b, at), four),
        call_ensures(u64_at, (b, at), eight),
    ensures
        two == b@[at as int] + 0x100 * b@[at + 1],
        four == two + 0x1_0000 * b@[at + 2] + 0x100_0000 * b@[at + 3],
        eight == four + 0x1_0000_0000 * b@[at + 4] + 0x100_0000_0000 * b@[at + 5]
            + 0x1_0000_0000_0000 * b@[at + 6] + 0x100_0000_0000_0000 * b@[at + 7],
{
    reveal_with_fuel(le, 9);
}

/// The upper half of the numbers of 64 bits stands for the negative ones; the
/// magnitude of a number is how far it is from zero.
pub proof fn the_upper_half_is_negative(v: u64, r: i64, m: u64)
    requires
        call_ensures(to_signed, (v,), r),
        call_ensures(magnitude, (v,), m),
    ensures
        r < 0 <==> v >= 0x8000_0000_0000_0000,
        r >= 0 ==> r == v && m == v,
        r < 0 ==> r + 0x1_0000_0000_0000_0000 == v && m == -r,
{
}

/// A unit is made of two bytes, the low one first.
pub proof fn a_unit_is_two_bytes(b: &[u8], at: usize, n: usize, r: Vec<u16>)
    requires
        at + 2 * n <= b@.len(),
        call_ensures(units_at, (b, at, n), r),
    ensures
        r@.len() == n,
        forall|k: int|
            0 <= k < n ==> #[trigger] r@[k] == b@[at + 2 * k] + 256 * b@[at + 2 * k + 1],
{
    reveal_with_fuel(le, 3);
    assert forall|k: int| 0 <= k < n implies #[trigger] r@[k] == b@[at + 2 * k] + 256 * b@[at + 2
        * k + 1] by {
        assert(le(b@, at + 2 * k, 2) == b@[at + 2 * k] + 256 * b@[at + 2 * k + 1]);
    }
}

} // verus!
