//! Little-endian integers.

use vstd::prelude::*;

verus! {

/// The two little-endian bytes of `x`.
#[verifier::opaque]
pub open spec fn u16_bytes(x: u16) -> Seq<u8> {
    seq![(x % 256) as u8, (x / 256) as u8]
}

/// The four little-endian bytes of `x`.
#[verifier::opaque]
pub open spec fn u32_bytes(x: u32) -> Seq<u8> {
    seq![
        (x % 256) as u8,
        ((x / 256) % 256) as u8,
        ((x / 65536) % 256) as u8,
        (x / 16777216) as u8,
    ]
}

/// The eight little-endian bytes of `x`: its low half, then its high half.
#[verifier::opaque]
pub open spec fn u64_bytes(x: u64) -> Seq<u8> {
    u32_bytes((x % 0x1_0000_0000) as u32) + u32_bytes((x / 0x1_0000_0000) as u32)
}

/// The integer whose little-endian bytes are `s`.
#[verifier::opaque]
pub open spec fn u16_of(s: Seq<u8>) -> u16 {
    (s[0] + 256 * s[1]) as u16
}

/// The integer whose little-endian bytes are `s`.
#[verifier::opaque]
pub open spec fn u32_of(s: Seq<u8>) -> u32 {
    (s[0] + 256 * s[1] + 65536 * s[2] + 16777216 * s[3]) as u32
}

/// The integer whose little-endian bytes are `s`.
#[verifier::opaque]
pub open spec fn u64_of(s: Seq<u8>) -> u64 {
    (u32_of(s.subrange(0, 4)) + 0x1_0000_0000 * u32_of(s.subrange(4, 8))) as u64
}

pub broadcast proof fn lemma_u16_bytes_width(x: u16)
    ensures
        (#[trigger] u16_bytes(x)).len() == 2,
{
    reveal(u16_bytes);
}

pub broadcast proof fn lemma_u32_bytes_width(x: u32)
    ensures
        (#[trigger] u32_bytes(x)).len() == 4,
{
    reveal(u32_bytes);
}

pub broadcast proof fn lemma_u64_bytes_width(x: u64)
    ensures
        (#[trigger] u64_bytes(x)).len() == 8,
{
    reveal(u64_bytes);
    lemma_u32_bytes_width((x % 0x1_0000_0000) as u32);
    lemma_u32_bytes_width((x / 0x1_0000_0000) as u32);
}

/// How many bytes each integer takes.
pub broadcast group group_widths {
    lemma_u16_bytes_width,
    lemma_u32_bytes_width,
    lemma_u64_bytes_width,
}

pub proof fn lemma_u16_round_trip(x: u16, s: Seq<u8>)
    ensures
        u16_of(u16_bytes(x)) == x,
        s.len() == 2 ==> u16_bytes(u16_of(s)) == s,
{
    reveal(u16_bytes);
    reveal(u16_of);
    if s.len() == 2 {
        assert(u16_bytes(u16_of(s)) =~= s);
    }
}

/// A `u32` is the sum of its weighted bytes.
proof fn lemma_u32_split(x: u32)
    ensures
        x == (x % 256) + 256 * ((x / 256) % 256) + 65536 * ((x / 65536) % 256) + 16777216 * (x
            / 16777216),
        x / 16777216 < 256,
{
    assert(x == (x % 256) + 256 * ((x / 256) % 256) + 65536 * ((x / 65536) % 256) + 16777216 * (x
        / 16777216)) by (bit_vector);
    assert(x / 16777216 < 256) by (bit_vector);
}

/// The bytes of a weighted sum are its summands.
proof fn lemma_u32_join(a: u8, b: u8, c: u8, d: u8, x: u32)
    requires
        x == a + 256 * b + 65536 * c + 16777216 * d,
    ensures
        x % 256 == a,
        (x / 256) % 256 == b,
        (x / 65536) % 256 == c,
        x / 16777216 == d,
{
    assert(x % 256 == a && (x / 256) % 256 == b && (x / 65536) % 256 == c && x / 16777216 == d)
        by (bit_vector)
        requires
            x == a + 256 * b + 65536 * c + 16777216 * d,
    ;
}

pub proof fn lemma_u32_round_trip(x: u32, s: Seq<u8>)
    ensures
        u32_of(u32_bytes(x)) == x,
        s.len() == 4 ==> u32_bytes(u32_of(s)) == s,
{
    reveal(u32_bytes);
    reveal(u32_of);
    lemma_u32_split(x);
    if s.len() == 4 {
        lemma_u32_join(s[0], s[1], s[2], s[3], u32_of(s));
        assert(u32_bytes(u32_of(s)) =~= s);
    }
}

pub proof fn lemma_u64_round_trip(x: u64, s: Seq<u8>)
    ensures
        u64_of(u64_bytes(x)) == x,
        s.len() == 8 ==> u64_bytes(u64_of(s)) == s,
{
    reveal(u64_bytes);
    reveal(u64_of);
    let lo = (x % 0x1_0000_0000) as u32;
    let hi = (x / 0x1_0000_0000) as u32;
    lemma_u32_bytes_width(lo);
    lemma_u32_bytes_width(hi);
    lemma_u32_round_trip(lo, s.subrange(0, 4));
    lemma_u32_round_trip(hi, s.subrange(4, 8));
    assert(u64_bytes(x).subrange(0, 4) =~= u32_bytes(lo));
    assert(u64_bytes(x).subrange(4, 8) =~= u32_bytes(hi));
    if s.len() == 8 {
        let a = u32_of(s.subrange(0, 4));
        let c = u32_of(s.subrange(4, 8));
        assert(u64_of(s) % 0x1_0000_0000 == a);
        assert(u64_of(s) / 0x1_0000_0000 == c);
        assert(s =~= s.subrange(0, 4) + s.subrange(4, 8));
    }
}

} // verus!
