//! Little-endian integers, and rounding up to a multiple.

use vstd::arithmetic::div_mod::*;
use vstd::arithmetic::power2::*;
use vstd::prelude::*;

verus! {

/// The value of two little-endian bytes.
pub open spec fn le16(s: Seq<u8>) -> int {
    s[0] + 0x100 * s[1]
}

/// The value of four little-endian bytes.
pub open spec fn le32(s: Seq<u8>) -> int {
    s[0] + 0x100 * s[1] + 0x1_0000 * s[2] + 0x100_0000 * s[3]
}

/// The value of eight little-endian bytes.
pub open spec fn le64(s: Seq<u8>) -> int {
    le32(s.subrange(0, 4)) + 0x1_0000_0000 * le32(s.subrange(4, 8))
}

/// The two little-endian bytes of `x`.
pub open spec fn le16_bytes(x: u16) -> Seq<u8> {
    seq![(x % 0x100) as u8, (x / 0x100) as u8]
}

/// The four little-endian bytes of `x`.
pub open spec fn le32_bytes(x: u32) -> Seq<u8> {
    seq![
        (x % 0x100) as u8,
        (x / 0x100 % 0x100) as u8,
        (x / 0x1_0000 % 0x100) as u8,
        (x / 0x100_0000) as u8,
    ]
}

/// The eight little-endian bytes of `x`.
pub open spec fn le64_bytes(x: u64) -> Seq<u8> {
    le32_bytes((x % 0x1_0000_0000) as u32) + le32_bytes((x / 0x1_0000_0000) as u32)
}

/// Reading back the bytes of an integer gives the integer.
pub proof fn law_le16_round_trip(x: u16)
    ensures
        le16_bytes(x).len() == 2,
        le16(le16_bytes(x)) == x,
{
}

/// Reading back the bytes of an integer gives the integer.
pub proof fn law_le32_round_trip(x: u32)
    ensures
        le32_bytes(x).len() == 4,
        le32(le32_bytes(x)) == x,
{
}

/// Reading back the bytes of an integer gives the integer.
pub proof fn law_le64_round_trip(x: u64)
    ensures
        le64_bytes(x).len() == 8,
        le64(le64_bytes(x)) == x,
{
    let low = (x % 0x1_0000_0000) as u32;
    let high = (x / 0x1_0000_0000) as u32;
    law_le32_round_trip(low);
    law_le32_round_trip(high);
    assert(le64_bytes(x).subrange(0, 4) =~= le32_bytes(low));
    assert(le64_bytes(x).subrange(4, 8) =~= le32_bytes(high));
}

pub fn read_le16(bytes: &[u8]) -> (x: u16)
    requires
        bytes@.len() == 2,
    ensures
        x == le16(bytes@),
{
    bytes[0] as u16 + bytes[1] as u16 * 0x100
}

pub fn read_le32(bytes: &[u8]) -> (x: u32)
    requires
        bytes@.len() == 4,
    ensures
        x == le32(bytes@),
{
    bytes[0] as u32 + bytes[1] as u32 * 0x100 + bytes[2] as u32 * 0x1_0000 + bytes[3] as u32
        * 0x100_0000
}

pub fn read_le64(bytes: &[u8]) -> (x: u64)
    requires
        bytes@.len() == 8,
    ensures
        x == le64(bytes@),
{
    let low: u32 = read_le32(vstd::slice::slice_subrange(bytes, 0, 4));
    let high: u32 = read_le32(vstd::slice::slice_subrange(bytes, 4, 8));
    low as u64 + high as u64 * 0x1_0000_0000
}

pub fn push_le16(out: &mut Vec<u8>, x: u16)
    ensures
        final(out)@ == old(out)@ + le16_bytes(x),
{
    out.push((x % 0x100) as u8);
    out.push((x / 0x100) as u8);
}

pub fn push_le32(out: &mut Vec<u8>, x: u32)
    ensures
        final(out)@ == old(out)@ + le32_bytes(x),
{
    out.push((x % 0x100) as u8);
    out.push((x / 0x100 % 0x100) as u8);
    out.push((x / 0x1_0000 % 0x100) as u8);
    out.push((x / 0x100_0000) as u8);
}

pub fn push_le64(out: &mut Vec<u8>, x: u64)
    ensures
        final(out)@ == old(out)@ + le64_bytes(x),
{
    push_le32(out, (x % 0x1_0000_0000) as u32);
    push_le32(out, (x / 0x1_0000_0000) as u32);
}

/// The least multiple of `align` that is at least `x`.
pub open spec fn align_up(x: int, align: int) -> int {
    if x % align == 0 {
        x
    } else {
        x + align - x % align
    }
}

/// `align_up` gives a multiple, and no smaller one would do.
pub proof fn law_align_up_is_the_least_multiple(x: int, align: int)
    requires
        align > 0,
    ensures
        align_up(x, align) % align == 0,
        x <= align_up(x, align) < x + align,
{
    lemma_mod_bound(x, align);
    if x % align != 0 {
        lemma_fundamental_div_mod(x, align);
        let up = x + align - x % align;
        assert(up == (x / align + 1) * align) by (nonlinear_arith)
            requires
                up == x + align - x % align,
                x == align * (x / align) + x % align,
        ;
        lemma_mod_multiples_basic(x / align + 1, align);
    }
}

/// Round `x` up to a multiple of `align`, or `None` if that overflows.
pub fn checked_align_up(x: usize, align: usize) -> (up: Option<usize>)
    requires
        align > 0,
    ensures
        up is Some <==> align_up(x as int, align as int) <= usize::MAX,
        up matches Some(n) ==> n == align_up(x as int, align as int),
{
    let rest: usize = x % align;
    if rest == 0 {
        Some(x)
    } else {
        x.checked_add(align - rest)
    }
}

/// Whether `n` is a power of two.
pub fn is_power_of_two(n: u16) -> (power: bool)
    ensures
        power <==> exists|k: nat| #[trigger] pow2(k) == n,
{
    let mut p: u32 = 1;
    let ghost mut k: nat = 0;
    proof {
        lemma2_to64();
    }
    while p < n as u32
        invariant
            p == pow2(k),
            1 <= p <= 0x2_0000,
            forall|j: nat| j < k ==> #[trigger] pow2(j) < n,
        decreases 0x2_0000 - p,
    {
        proof {
            lemma_pow2_unfold(k + 1);
            k = k + 1;
        }
        p = p * 2;
    }
    if p == n as u32 {
        return true;
    }
    proof {
        assert forall|j: nat| #[trigger] pow2(j) != n by {
            if j > k {
                lemma_pow2_strictly_increases(k, j);
            }
        }
    }
    false
}

/// The lowest byte comes first, and each byte behind it counts for as much again as all the
/// bytes before it can.
pub proof fn law_lowest_byte_comes_first(x: u16, y: u32, z: u64)
    ensures
        le16_bytes(x)[0] == x % 0x100,
        le16_bytes(x)[1] == x / 0x100,
        le32_bytes(y)[0] == y % 0x100,
        le32_bytes(y)[1] == y / 0x100 % 0x100,
        le32_bytes(y)[2] == y / 0x1_0000 % 0x100,
        le32_bytes(y)[3] == y / 0x100_0000,
        le64_bytes(z).take(4) == le32_bytes((z % 0x1_0000_0000) as u32),
        le64_bytes(z).skip(4) == le32_bytes((z / 0x1_0000_0000) as u32),
{
    let low = le32_bytes((z % 0x1_0000_0000) as u32);
    let high = le32_bytes((z / 0x1_0000_0000) as u32);
    assert(le64_bytes(z).take(4) =~= low);
    assert(le64_bytes(z).skip(4) =~= high);
}

/// Bytes stand for the number that has them as its digits to the base of 256, the lowest
/// first.
pub proof fn law_bytes_are_digits(a: Seq<u8>, b: Seq<u8>, c: Seq<u8>)
    requires
        a.len() == 2,
        b.len() == 4,
        c.len() == 8,
    ensures
        le16(a) == a[0] + 256 * a[1],
        le32(b) == b[0] + 256 * (b[1] + 256 * (b[2] + 256 * b[3])),
        le64(c) == le32(c.take(4)) + 0x1_0000_0000 * le32(c.skip(4)),
        0 <= le16(a) <= u16::MAX,
        0 <= le32(b) <= u32::MAX,
        0 <= le64(c) <= u64::MAX,
{
    assert(c.take(4) =~= c.subrange(0, 4));
    assert(c.skip(4) =~= c.subrange(4, 8));
}

} // verus!
