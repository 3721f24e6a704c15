//! Byte-to-code tables: the default two-bit nucleotide encoding, custom
//! encodings, and the derived complement table used in canonical mode.

use vstd::prelude::*;

verus! {

/// The complement of a nucleotide byte; bytes outside the alphabet are
/// their own complement.
pub open spec fn comp_byte(b: u8) -> u8 {
    if b == 65 {
        84
    } else if b == 84 {
        65
    } else if b == 97 {
        116
    } else if b == 116 {
        97
    } else if b == 67 {
        71
    } else if b == 71 {
        67
    } else if b == 99 {
        103
    } else if b == 103 {
        99
    } else {
        b
    }
}

/// A 256-entry byte-to-code table with two-bit codes.
pub open spec fn enc_wf(enc: Seq<u8>) -> bool {
    &&& enc.len() == 256
    &&& forall|i: int| 0 <= i < 256 ==> enc[i] < 4
}

fn comp_byte_exec(b: u8) -> (c: u8)
    ensures
        c == comp_byte(b),
{
    if b == 65u8 {
        84u8
    } else if b == 84u8 {
        65u8
    } else if b == 97u8 {
        116u8
    } else if b == 116u8 {
        97u8
    } else if b == 67u8 {
        71u8
    } else if b == 71u8 {
        67u8
    } else if b == 99u8 {
        103u8
    } else if b == 103u8 {
        99u8
    } else {
        b
    }
}

/// Table that encodes each byte as the code of its complement.
pub fn complement_table(enc: &Vec<u8>) -> (rc: Vec<u8>)
    requires
        enc_wf(enc@),
    ensures
        enc_wf(rc@),
        forall|b: int| 0 <= b < 256 ==> #[trigger] rc@[b] == enc@[comp_byte(b as u8) as int],
{
    let mut rc: Vec<u8> = Vec::new();
    let mut b: usize = 0;
    while b < 256
        invariant
            b <= 256,
            enc_wf(enc@),
            rc@.len() == b,
            forall|i: int| 0 <= i < b ==> #[trigger] rc@[i] == enc@[comp_byte(i as u8) as int],
        decreases 256 - b,
    {
        rc.push(enc[comp_byte_exec(b as u8) as usize]);
        b = b + 1;
    }
    rc
}

/// Table with the given codes for the four nucleotides (both cases) and
/// zero for every other byte.
pub fn encoding_with(a: u8, c: u8, g: u8, t: u8) -> (enc: Vec<u8>)
    requires
        a < 4,
        c < 4,
        g < 4,
        t < 4,
    ensures
        enc_wf(enc@),
        enc@[65] == a && enc@[97] == a,
        enc@[67] == c && enc@[99] == c,
        enc@[71] == g && enc@[103] == g,
        enc@[84] == t && enc@[116] == t,
    {
    let mut enc: Vec<u8> = Vec::new();
    let mut b: usize = 0;
    while b < 256
        invariant
            b <= 256,
            enc@.len() == b,
            forall|i: int| 0 <= i < b ==> #[trigger] enc@[i] == 0,
        decreases 256 - b,
    {
        enc.push(0);
        b = b + 1;
    }
    enc.set(65, a);
    enc.set(97, a);
    enc.set(67, c);
    enc.set(99, c);
    enc.set(71, g);
    enc.set(103, g);
    enc.set(84, t);
    enc.set(116, t);
    enc
}

/// The default encoding: A = 0, C = 1, G = 2, T = 3, case-insensitive,
/// zero for every other byte.
pub fn default_encoding() -> (enc: Vec<u8>)
    ensures
        enc_wf(enc@),
        enc@[65] == 0 && enc@[97] == 0,
        enc@[67] == 1 && enc@[99] == 1,
        enc@[71] == 2 && enc@[103] == 2,
        enc@[84] == 3 && enc@[116] == 3,
{
    encoding_with(0, 1, 2, 3)
}

} // verus!
