//! Little-endian numbers in byte sequences.
use vstd::prelude::*;
use crate::tt::{bits16, signed16, signed8};

verus! {

pub open spec fn signed32(x: int) -> int {
    if x >= 0x8000_0000 {
        x - 0x1_0000_0000
    } else {
        x
    }
}

pub open spec fn u16_at(d: Seq<u8>, o: int) -> int {
    d[o] + 0x100 * d[o + 1]
}

pub open spec fn u32_at(d: Seq<u8>, o: int) -> int {
    d[o] + 0x100 * d[o + 1] + 0x1_0000 * d[o + 2] + 0x100_0000 * d[o + 3]
}

pub open spec fn i16_at(d: Seq<u8>, o: int) -> int {
    signed16(u16_at(d, o))
}

pub open spec fn i32_at(d: Seq<u8>, o: int) -> int {
    signed32(u32_at(d, o))
}

/// A byte read as a signed number.
pub fn as_i8(b: u8) -> (r: i8)
    ensures
        r == signed8(b as int),
{
    assert(b as i8 == signed8(b as int)) by {
        assert(b as i8 == if b >= 0x80 {
            b - 0x100
        } else {
            b as int
        }) by (bit_vector);
    }
    b as i8
}

pub fn read_i16(d: &[u8], o: usize) -> (r: i16)
    requires
        o + 2 <= d@.len(),
    ensures
        r == i16_at(d@, o as int),
{
    let u: u16 = d[o] as u16 + 0x100 * d[o + 1] as u16;
    proof {
        assert(u as i16 == if u >= 0x8000 {
            u - 0x10000
        } else {
            u as int
        }) by (bit_vector);
    }
    u as i16
}

pub fn read_u32(d: &[u8], o: usize) -> (r: u32)
    requires
        o + 4 <= d@.len(),
    ensures
        r == u32_at(d@, o as int),
{
    d[o] as u32 + 0x100 * d[o + 1] as u32 + 0x1_0000 * d[o + 2] as u32 + 0x100_0000 * d[o + 3] as u32
}

pub fn read_i32(d: &[u8], o: usize) -> (r: i32)
    requires
        o + 4 <= d@.len(),
    ensures
        r == i32_at(d@, o as int),
{
    let u: u32 = read_u32(d, o);
    proof {
        assert(u as i32 == if u >= 0x8000_0000 {
            u - 0x1_0000_0000
        } else {
            u as int
        }) by (bit_vector);
    }
    u as i32
}

/// The two bytes of an unsigned number.
pub fn u16_bytes(x: u16) -> (r: (u8, u8))
    ensures
        r.0 == x as int % 0x100,
        r.1 == x as int / 0x100,
        r.0 + 0x100 * r.1 == x,
{
    ((x % 0x100) as u8, (x / 0x100) as u8)
}

/// The two bytes of a signed number.
pub fn i16_bytes(x: i16) -> (r: (u8, u8))
    ensures
        r.0 + 0x100 * r.1 == bits16(x),
        signed16(r.0 + 0x100 * r.1) == x,
{
    let u: u16 = x as u16;
    proof {
        assert(x as u16 == bits16(x)) by (bit_vector);
    }
    u16_bytes(u)
}

// ---------------- laws ----------------
/// Numbers are kept with their low byte first, and the negative ones as what wraps to them.
pub proof fn law_low_bytes_come_first(d: Seq<u8>, o: int)
    ensures
        u16_at(d, o) % 256 == d[o],
        u16_at(d, o) / 256 == d[o + 1],
        u32_at(d, o) % 65_536 == u16_at(d, o),
        u32_at(d, o) / 65_536 == u16_at(d, o + 2),
        i16_at(d, o) < 0 <==> d[o + 1] >= 128,
        (i16_at(d, o) - u16_at(d, o)) % 65_536 == 0,
        -32_768 <= i16_at(d, o) <= 32_767,
        i32_at(d, o) < 0 <==> d[o + 3] >= 128,
        (i32_at(d, o) - u32_at(d, o)) % 0x1_0000_0000 == 0,
{
}

} // verus!
