//! Big-endian integer layout shared by the binary wire formats.

use vstd::prelude::*;

verus! {

/// Big-endian bytes of a `u16`: most significant byte first.
pub open spec fn spec_be16(x: u16) -> Seq<u8> {
    seq![(x / 256) as u8, (x % 256) as u8]
}

/// Big-endian bytes of a `u32`: most significant byte first.
pub open spec fn spec_be32(x: u32) -> Seq<u8> {
    seq![
        (x / 0x1000000) as u8,
        ((x / 0x10000) % 256) as u8,
        ((x / 256) % 256) as u8,
        (x % 256) as u8,
    ]
}

/// The `u16` denoted by two big-endian bytes.
pub open spec fn spec_u16_of(b0: u8, b1: u8) -> u16 {
    (b0 * 256 + b1) as u16
}

/// The `u32` denoted by four big-endian bytes.
pub open spec fn spec_u32_of(b0: u8, b1: u8, b2: u8, b3: u8) -> u32 {
    (b0 * 0x1000000 + b1 * 0x10000 + b2 * 256 + b3) as u32
}

/// Reading back the two bytes of `spec_be16` yields the original value.
pub proof fn lemma_be16_roundtrip(x: u16)
    ensures
        spec_u16_of(spec_be16(x)[0], spec_be16(x)[1]) == x,
{
}

/// Reading back the four bytes of `spec_be32` yields the original value.
pub proof fn lemma_be32_roundtrip(x: u32)
    ensures
        spec_u32_of(spec_be32(x)[0], spec_be32(x)[1], spec_be32(x)[2], spec_be32(x)[3]) == x,
{
}

/// Encoding the value two big-endian bytes denote yields those bytes back.
pub proof fn lemma_be16_reverse(b0: u8, b1: u8)
    ensures
        spec_be16(spec_u16_of(b0, b1)) =~= seq![b0, b1],
{
}

/// Encoding the value four big-endian bytes denote yields those bytes back.
pub proof fn lemma_be32_reverse(b0: u8, b1: u8, b2: u8, b3: u8)
    ensures
        spec_be32(spec_u32_of(b0, b1, b2, b3)) =~= seq![b0, b1, b2, b3],
{
    let x = (b0 * 0x1000000 + b1 * 0x10000 + b2 * 256 + b3) as int;
    vstd::arithmetic::div_mod::lemma_fundamental_div_mod_converse_div(
        x,
        0x1000000,
        b0 as int,
        (b1 * 0x10000 + b2 * 256 + b3) as int,
    );
    vstd::arithmetic::div_mod::lemma_fundamental_div_mod_converse_div(
        x,
        0x10000,
        (b0 * 256 + b1) as int,
        (b2 * 256 + b3) as int,
    );
    vstd::arithmetic::div_mod::lemma_fundamental_div_mod_converse_mod(
        (b0 * 256 + b1) as int,
        256,
        b0 as int,
        b1 as int,
    );
    vstd::arithmetic::div_mod::lemma_fundamental_div_mod_converse_div(
        x,
        256,
        (b0 * 0x10000 + b1 * 256 + b2) as int,
        b3 as int,
    );
    vstd::arithmetic::div_mod::lemma_fundamental_div_mod_converse_mod(
        (b0 * 0x10000 + b1 * 256 + b2) as int,
        256,
        (b0 * 256 + b1) as int,
        b2 as int,
    );
    vstd::arithmetic::div_mod::lemma_fundamental_div_mod_converse_mod(x, 256, (b0 * 0x10000 + b1
        * 256 + b2) as int, b3 as int);
}

/// Appends the two big-endian bytes of `x`.
pub fn push_be16(out: &mut Vec<u8>, x: u16)
    ensures
        final(out)@ == old(out)@ + spec_be16(x),
{
    out.push((x / 256) as u8);
    out.push((x % 256) as u8);
    proof {
        assert(out@ =~= old(out)@ + spec_be16(x));
    }
}

/// Appends the four big-endian bytes of `x`.
pub fn push_be32(out: &mut Vec<u8>, x: u32)
    ensures
        final(out)@ == old(out)@ + spec_be32(x),
{
    out.push((x / 0x1000000) as u8);
    out.push(((x / 0x10000) % 256) as u8);
    out.push(((x / 256) % 256) as u8);
    out.push((x % 256) as u8);
    proof {
        assert(out@ =~= old(out)@ + spec_be32(x));
    }
}

/// Reads the big-endian `u16` at offset `i`.
pub fn read_be16(bytes: &[u8], i: usize) -> (r: u16)
    requires
        i + 2 <= bytes@.len(),
    ensures
        r == spec_u16_of(bytes@[i as int], bytes@[i as int + 1]),
{
    bytes[i] as u16 * 256 + bytes[i + 1] as u16
}

/// Reads the big-endian `u32` at offset `i`.
pub fn read_be32(bytes: &[u8], i: usize) -> (r: u32)
    requires
        i + 4 <= bytes@.len(),
    ensures
        r == spec_u32_of(bytes@[i as int], bytes@[i as int + 1], bytes@[i as int + 2], bytes@[i as int + 3]),
{
    bytes[i] as u32 * 0x1000000 + bytes[i + 1] as u32 * 0x10000 + bytes[i + 2] as u32 * 256
        + bytes[i + 3] as u32
}

} // verus!
