//! Direct binary output of scalar types, and the little-endian byte
//! helpers the wire format is built on.

use vstd::prelude::*;
use crate::constants::VBIN_BOOL;
use crate::constants::VBIN_UINT;

verus! {

/// The eight little-endian bytes of a 64-bit value.
pub open spec fn spec_le_bytes_u64(n: u64) -> Seq<u8> {
    seq![
        (n & 0xff) as u8,
        ((n >> 8) & 0xff) as u8,
        ((n >> 16) & 0xff) as u8,
        ((n >> 24) & 0xff) as u8,
        ((n >> 32) & 0xff) as u8,
        ((n >> 40) & 0xff) as u8,
        ((n >> 48) & 0xff) as u8,
        ((n >> 56) & 0xff) as u8,
    ]
}

/// The 64-bit value stored little-endian at offset `i` of `s`.
pub open spec fn spec_le_u64_at(s: Seq<u8>, i: int) -> u64
    recommends
        0 <= i,
        i + 8 <= s.len(),
{
    (s[i] as u64) | ((s[i + 1] as u64) << 8) | ((s[i + 2] as u64) << 16) | ((s[i + 3] as u64)
        << 24) | ((s[i + 4] as u64) << 32) | ((s[i + 5] as u64) << 40) | ((s[i + 6] as u64) << 48)
        | ((s[i + 7] as u64) << 56)
}

/// Reading back the eight little-endian bytes of `n` yields `n` again.
pub proof fn lemma_le_u64_roundtrip(n: u64)
    ensures
        spec_le_u64_at(spec_le_bytes_u64(n), 0) == n,
{
    let s = spec_le_bytes_u64(n);
    let b0 = (n & 0xff) as u8;
    let b1 = ((n >> 8) & 0xff) as u8;
    let b2 = ((n >> 16) & 0xff) as u8;
    let b3 = ((n >> 24) & 0xff) as u8;
    let b4 = ((n >> 32) & 0xff) as u8;
    let b5 = ((n >> 40) & 0xff) as u8;
    let b6 = ((n >> 48) & 0xff) as u8;
    let b7 = ((n >> 56) & 0xff) as u8;
    assert((b0 as u64) | ((b1 as u64) << 8) | ((b2 as u64) << 16) | ((b3 as u64) << 24) | ((
    b4 as u64) << 32) | ((b5 as u64) << 40) | ((b6 as u64) << 48) | ((b7 as u64) << 56) == n)
        by (bit_vector)
        requires
            b0 == (n & 0xff) as u8,
            b1 == ((n >> 8) & 0xff) as u8,
            b2 == ((n >> 16) & 0xff) as u8,
            b3 == ((n >> 24) & 0xff) as u8,
            b4 == ((n >> 32) & 0xff) as u8,
            b5 == ((n >> 40) & 0xff) as u8,
            b6 == ((n >> 48) & 0xff) as u8,
            b7 == ((n >> 56) & 0xff) as u8,
    ;
    assert(spec_le_u64_at(s, 0) == (s[0] as u64) | ((s[1] as u64) << 8) | ((s[2] as u64) << 16) | ((
    s[3] as u64) << 24) | ((s[4] as u64) << 32) | ((s[5] as u64) << 40) | ((s[6] as u64) << 48) | ((
    s[7] as u64) << 56));
}

/// Eight little-endian bytes embedded at offset `i` read back as the
/// stamped word.
pub proof fn lemma_le_u64_embed(s: Seq<u8>, i: int, n: u64)
    requires
        0 <= i,
        i + 8 <= s.len(),
        forall|j: int| 0 <= j < 8 ==> s[i + j] == spec_le_bytes_u64(n)[j],
    ensures
        spec_le_u64_at(s, i) == n,
{
    lemma_le_u64_roundtrip(n);
    let b = spec_le_bytes_u64(n);
    assert(s[i] == b[0] && s[i + 1] == b[1] && s[i + 2] == b[2] && s[i + 3] == b[3] && s[i + 4]
        == b[4] && s[i + 5] == b[5] && s[i + 6] == b[6] && s[i + 7] == b[7]);
    assert(spec_le_u64_at(s, i) == spec_le_u64_at(b, 0));
}

/// Appends the eight little-endian bytes of `n` to `out`.
pub fn push_u64_le(out: &mut Vec<u8>, n: u64)
    ensures
        final(out)@ == old(out)@ + spec_le_bytes_u64(n),
{
    out.push((n & 0xff) as u8);
    out.push(((n >> 8) & 0xff) as u8);
    out.push(((n >> 16) & 0xff) as u8);
    out.push(((n >> 24) & 0xff) as u8);
    out.push(((n >> 32) & 0xff) as u8);
    out.push(((n >> 40) & 0xff) as u8);
    out.push(((n >> 48) & 0xff) as u8);
    out.push(((n >> 56) & 0xff) as u8);
    assert(out@ =~= old(out)@ + spec_le_bytes_u64(n));
}

/// Reads the 64-bit value stored little-endian at offset `i` of `input`.
pub fn read_u64_le(input: &Vec<u8>, i: usize) -> (r: u64)
    requires
        i + 8 <= input@.len(),
    ensures
        r == spec_le_u64_at(input@, i as int),
{
    proof {
        vstd::std_specs::vec::axiom_spec_len(input);
    }
    (input[i] as u64) | ((input[i + 1] as u64) << 8) | ((input[i + 2] as u64) << 16) | ((input[i
        + 3] as u64) << 24) | ((input[i + 4] as u64) << 32) | ((input[i + 5] as u64) << 40) | ((
    input[i + 6] as u64) << 48) | ((input[i + 7] as u64) << 56)
}

/// The 32-bit value stored little-endian at offset `i` of `s`.
pub open spec fn spec_le_u32_at(s: Seq<u8>, i: int) -> u32
    recommends
        0 <= i,
        i + 4 <= s.len(),
{
    (s[i] as u32) | ((s[i + 1] as u32) << 8) | ((s[i + 2] as u32) << 16) | ((s[i + 3] as u32)
        << 24)
}

/// Reads the 32-bit value stored little-endian at offset `i` of `input`.
pub fn read_u32_le(input: &Vec<u8>, i: usize) -> (r: u32)
    requires
        i + 4 <= input@.len(),
    ensures
        r == spec_le_u32_at(input@, i as int),
{
    proof {
        vstd::std_specs::vec::axiom_spec_len(input);
    }
    (input[i] as u32) | ((input[i + 1] as u32) << 8) | ((input[i + 2] as u32) << 16) | ((input[i
        + 3] as u32) << 24)
}

/// The two little-endian bytes of a 16-bit value.
pub open spec fn spec_le_bytes_u16(n: u16) -> Seq<u8> {
    seq![(n & 0xff) as u8, ((n >> 8) & 0xff) as u8]
}

/// The 16-bit value stored little-endian at offset `i` of `s`.
pub open spec fn spec_le_u16_at(s: Seq<u8>, i: int) -> u16
    recommends
        0 <= i,
        i + 2 <= s.len(),
{
    (s[i] as u16) | ((s[i + 1] as u16) << 8)
}

/// Appends the two little-endian bytes of `n` to `out`.
pub fn push_u16_le(out: &mut Vec<u8>, n: u16)
    ensures
        final(out)@ == old(out)@ + spec_le_bytes_u16(n),
{
    out.push((n & 0xff) as u8);
    out.push(((n >> 8) & 0xff) as u8);
    assert(out@ =~= old(out)@ + spec_le_bytes_u16(n));
}

/// Reads the 16-bit value stored little-endian at offset `i` of `input`.
pub fn read_u16_le(input: &Vec<u8>, i: usize) -> (r: u16)
    requires
        i + 2 <= input@.len(),
    ensures
        r == spec_le_u16_at(input@, i as int),
{
    proof {
        vstd::std_specs::vec::axiom_spec_len(input);
    }
    (input[i] as u16) | ((input[i + 1] as u16) << 8)
}

/// Writes a boolean in wire form: the `VBIN_BOOL` tag and one byte.
pub fn out_bool(val: bool, out: &mut Vec<u8>)
    ensures
        final(out)@ == old(out)@ + seq![VBIN_BOOL, (if val { 1u8 } else { 0u8 })],
{
    out.push(VBIN_BOOL);
    if val {
        out.push(1);
    } else {
        out.push(0);
    }
    assert(out@ =~= old(out)@ + seq![VBIN_BOOL, (if val { 1u8 } else { 0u8 })]);
}

/// Writes an unsigned integer in wire form: the `VBIN_UINT` tag and eight
/// little-endian bytes.
pub fn out_u64(val: u64, out: &mut Vec<u8>)
    ensures
        final(out)@ == old(out)@ + seq![VBIN_UINT] + spec_le_bytes_u64(val),
{
    out.push(VBIN_UINT);
    push_u64_le(out, val);
    assert(out@ =~= old(out)@ + seq![VBIN_UINT] + spec_le_bytes_u64(val));
}

} // verus!
