//! Little-endian integer views of raw bytes, as the firmware's
//! boot-configuration records store them.

use vstd::prelude::*;

verus! {

/// The 16-bit value stored little-endian in two bytes.
pub open spec fn u16_from_le(b0: u8, b1: u8) -> u16 {
    (b0 as int + b1 as int * 0x100) as u16
}

/// The 32-bit value stored little-endian in four bytes.
pub open spec fn u32_from_le(b0: u8, b1: u8, b2: u8, b3: u8) -> u32 {
    (b0 as int + b1 as int * 0x100 + b2 as int * 0x10000 + b3 as int * 0x1000000) as u32
}

/// The 64-bit value stored little-endian in eight bytes.
pub open spec fn u64_from_le(b: Seq<u8>) -> u64
    recommends
        b.len() == 8,
{
    (b[0] as int + b[1] as int * 0x100 + b[2] as int * 0x10000 + b[3] as int * 0x1000000
        + b[4] as int * 0x100000000 + b[5] as int * 0x10000000000 + b[6] as int * 0x1000000000000
        + b[7] as int * 0x100000000000000) as u64
}

/// The two little-endian bytes of a 16-bit value.
pub open spec fn u16_to_le(v: u16) -> Seq<u8> {
    seq![(v as int % 0x100) as u8, (v as int / 0x100) as u8]
}

/// The four little-endian bytes of a 32-bit value.
pub open spec fn u32_to_le(v: u32) -> Seq<u8> {
    seq![
        (v as int % 0x100) as u8,
        (v as int / 0x100 % 0x100) as u8,
        (v as int / 0x10000 % 0x100) as u8,
        (v as int / 0x1000000) as u8,
    ]
}

/// The serialized bytes of a sequence of 16-bit values, in order, each
/// little-endian.
pub open spec fn u16s_to_le(units: Seq<u16>) -> Seq<u8>
    decreases units.len(),
{
    if units.len() == 0 {
        Seq::empty()
    } else {
        u16_to_le(units[0]) + u16s_to_le(units.drop_first())
    }
}

/// Reading two little-endian bytes back gives the bytes themselves.
pub proof fn lemma_u16_le_round_trip(b0: u8, b1: u8)
    ensures
        u16_to_le(u16_from_le(b0, b1)) == seq![b0, b1],
{
    let v = b0 as int + b1 as int * 0x100;
    assert(v % 0x100 == b0 as int) by (nonlinear_arith)
        requires
            v == b0 as int + b1 as int * 0x100,
            0 <= b0 < 0x100,
            0 <= b1 < 0x100,
    ;
    assert(v / 0x100 == b1 as int) by (nonlinear_arith)
        requires
            v == b0 as int + b1 as int * 0x100,
            0 <= b0 < 0x100,
            0 <= b1 < 0x100,
    ;
    assert(u16_to_le(u16_from_le(b0, b1)) =~= seq![b0, b1]);
}

/// Serializing a 16-bit value and reading it back gives the value itself.
pub proof fn lemma_u16_value_round_trip(v: u16)
    ensures
        u16_from_le(u16_to_le(v)[0], u16_to_le(v)[1]) == v,
{
    assert(v as int % 0x100 + (v as int / 0x100) * 0x100 == v as int) by (nonlinear_arith)
        requires
            0 <= v < 0x10000,
    ;
}

/// Reading four little-endian bytes back gives the bytes themselves.
pub proof fn lemma_u32_le_round_trip(b0: u8, b1: u8, b2: u8, b3: u8)
    ensures
        u32_to_le(u32_from_le(b0, b1, b2, b3)) == seq![b0, b1, b2, b3],
{
    let v = b0 as int + b1 as int * 0x100 + b2 as int * 0x10000 + b3 as int * 0x1000000;
    assert(v % 0x100 == b0 as int && v / 0x100 % 0x100 == b1 as int && v / 0x10000 % 0x100
        == b2 as int && v / 0x1000000 == b3 as int) by (nonlinear_arith)
        requires
            v == b0 as int + b1 as int * 0x100 + b2 as int * 0x10000 + b3 as int * 0x1000000,
            0 <= b0 < 0x100,
            0 <= b1 < 0x100,
            0 <= b2 < 0x100,
            0 <= b3 < 0x100,
    ;
    assert(u32_to_le(u32_from_le(b0, b1, b2, b3)) =~= seq![b0, b1, b2, b3]);
}

/// Read the 16-bit value stored little-endian at `pos`.
pub fn read_u16_le(bytes: &[u8], pos: usize) -> (r: u16)
    requires
        pos + 2 <= bytes@.len(),
    ensures
        r == u16_from_le(bytes@[pos as int], bytes@[pos + 1]),
{
    bytes[pos] as u16 + bytes[pos + 1] as u16 * 0x100
}

/// Read the 32-bit value stored little-endian at `pos`.
pub fn read_u32_le(bytes: &[u8], pos: usize) -> (r: u32)
    requires
        pos + 4 <= bytes@.len(),
    ensures
        r == u32_from_le(bytes@[pos as int], bytes@[pos + 1], bytes@[pos + 2], bytes@[pos + 3]),
{
    bytes[pos] as u32 + bytes[pos + 1] as u32 * 0x100 + bytes[pos + 2] as u32 * 0x10000
        + bytes[pos + 3] as u32 * 0x1000000
}

/// Read the 64-bit value stored little-endian at `pos`.
pub fn read_u64_le(bytes: &[u8], pos: usize) -> (r: u64)
    requires
        pos + 8 <= bytes@.len(),
    ensures
        r == u64_from_le(bytes@.subrange(pos as int, pos + 8)),
{
    let n: usize = bytes.len();
    let lo = read_u32_le(bytes, pos);
    let hi = read_u32_le(bytes, pos + 4);
    let r = lo as u64 + hi as u64 * 0x100000000;
    proof {
        let s = bytes@.subrange(pos as int, pos + 8);
        assert(s[0] == bytes@[pos as int] && s[1] == bytes@[pos + 1] && s[2] == bytes@[pos + 2]
            && s[3] == bytes@[pos + 3] && s[4] == bytes@[pos + 4] && s[5] == bytes@[pos + 5]
            && s[6] == bytes@[pos + 6] && s[7] == bytes@[pos + 7]);
    }
    r
}

/// Append the two little-endian bytes of `v`.
pub fn push_u16_le(out: &mut Vec<u8>, v: u16)
    ensures
        final(out)@ == old(out)@ + u16_to_le(v),
{
    out.push((v % 0x100) as u8);
    out.push((v / 0x100) as u8);
    assert(out@ =~= old(out)@ + u16_to_le(v));
}

/// Append the four little-endian bytes of `v`.
pub fn push_u32_le(out: &mut Vec<u8>, v: u32)
    ensures
        final(out)@ == old(out)@ + u32_to_le(v),
{
    out.push((v % 0x100) as u8);
    out.push((v / 0x100 % 0x100) as u8);
    out.push((v / 0x10000 % 0x100) as u8);
    out.push((v / 0x1000000) as u8);
    assert(out@ =~= old(out)@ + u32_to_le(v));
}

} // verus!
