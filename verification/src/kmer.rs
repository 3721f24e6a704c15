//! Packed two-bit encoding of nucleotide sequences and the rolling
//! register updates that maintain a window's packed value.

use vstd::arithmetic::power2::*;
use vstd::bits::*;
use vstd::prelude::*;

verus! {

/// 4^n, the number of distinct packed values of `n` two-bit codes.
pub open spec fn pow4(n: nat) -> nat {
    pow2(2 * n)
}

/// Every entry of a code sequence fits in two bits.
pub open spec fn codes_wf(codes: Seq<u8>) -> bool {
    forall|i: int| 0 <= i < codes.len() ==> codes[i] < 4
}

/// Packed value of a code sequence: two bits per code, the most recent
/// (last) code in the lowest bits.
pub open spec fn pack(codes: Seq<u8>) -> nat
    decreases codes.len(),
{
    if codes.len() == 0 {
        0
    } else {
        (pack(codes.drop_last()) * 4 + codes.last()) as nat
    }
}

pub proof fn lemma_pow4_unfold(n: nat)
    requires
        n >= 1,
    ensures
        pow4(n) == 4 * pow4((n - 1) as nat),
{
    lemma_pow2_adds((2 * n - 2) as nat, 2);
    lemma2_to64();
}

pub proof fn lemma_pow4_pos(n: nat)
    ensures
        pow4(n) >= 1,
{
    lemma_pow2_pos(2 * n);
}

pub proof fn lemma_pack_bound(codes: Seq<u8>)
    requires
        codes_wf(codes),
    ensures
        pack(codes) < pow4(codes.len()),
    decreases codes.len(),
{
    if codes.len() == 0 {
        lemma_pow4_pos(0);
        lemma2_to64();
    } else {
        assert(codes_wf(codes.drop_last()));
        lemma_pack_bound(codes.drop_last());
        lemma_pow4_unfold(codes.len());
    }
}

/// Two code sequences of the same length with equal packed values are
/// equal.
pub proof fn lemma_pack_injective(a: Seq<u8>, b: Seq<u8>)
    requires
        codes_wf(a),
        codes_wf(b),
        a.len() == b.len(),
        pack(a) == pack(b),
    ensures
        a =~= b,
    decreases a.len(),
{
    if a.len() > 0 {
        assert(pack(a) == pack(a.drop_last()) * 4 + a.last());
        assert(pack(b) == pack(b.drop_last()) * 4 + b.last());
        let qa = pack(a.drop_last()) as int;
        let qb = pack(b.drop_last()) as int;
        let ra = a.last() as int;
        let rb = b.last() as int;
        assert(qa == qb && ra == rb) by (nonlinear_arith)
            requires
                qa * 4 + ra == qb * 4 + rb,
                0 <= ra < 4,
                0 <= rb < 4,
                qa >= 0,
                qb >= 0,
        ;
        assert(codes_wf(a.drop_last()));
        assert(codes_wf(b.drop_last()));
        lemma_pack_injective(a.drop_last(), b.drop_last());
        assert(forall|i: int| 0 <= i < a.len() - 1 ==> a[i] == a.drop_last()[i]);
        assert(forall|i: int| 0 <= i < b.len() - 1 ==> b[i] == b.drop_last()[i]);
    }
}

/// Mask that keeps the low `k - 1` codes of a register.
pub fn code_mask(k: usize) -> (m: u64)
    requires
        1 <= k <= 32,
    ensures
        m == pow4((k - 1) as nat) - 1,
{
    let s: u64 = 2 * ((k - 1) as u64);
    proof {
        lemma_u64_pow2_no_overflow(s as nat);
        lemma_u64_shl_is_mul(1u64, s);
    }
    (1u64 << s) - 1
}

/// Rolling forward update: append `code` at the low end of `reg`, keeping
/// the most recent `k` codes.
pub fn push_code(reg: u64, code: u8, mask: u64, Ghost(k): Ghost<nat>) -> (r: u64)
    requires
        1 <= k <= 32,
        mask == pow4((k - 1) as nat) - 1,
        code < 4,
    ensures
        r == (reg as nat % pow4((k - 1) as nat)) * 4 + code,
        r < pow4(k),
{
    let ghost s: nat = (2 * (k - 1)) as nat;
    proof {
        lemma_u64_pow2_no_overflow(s);
        assert(mask == low_bits_mask(s));
        lemma_u64_low_bits_mask_is_mod(reg, s);
        lemma_pow2_pos(s);
        assert((reg & mask) == reg % (pow2(s) as u64));
        assert((reg & mask) < pow2(s));
        lemma2_to64();
        lemma_pow4_unfold(k);
        assert(pow4(k) == 4 * pow4((k - 1) as nat));
        let y = (reg & mask) as int;
        let p = pow2(s) as int;
        assert(y * 4 + 4 <= 4 * p) by (nonlinear_arith)
            requires
                y < p,
        ;
        assert(4 * pow2(s) == pow2(s + 2)) by {
            lemma_pow2_adds(s, 2);
        }
        assert(pow2(s + 2) <= pow2(64)) by {
            if s + 2 < 64 {
                lemma_pow2_strictly_increases(s + 2, 64);
            }
        }
        assert(pow2(64) == 0x10000000000000000) by {
            lemma2_to64_rest();
        }
        lemma_u64_shl_is_mul(reg & mask, 2);
    }
    ((reg & mask) << 2u64) + (code as u64)
}

/// Rolling reverse-complement update: shift `rc` down one code and insert
/// `code` at the high end of a `k`-code register.
pub fn push_rc_code(rc: u64, code: u8, shift: usize, Ghost(k): Ghost<nat>) -> (r: u64)
    requires
        1 <= k <= 32,
        shift == 2 * (k - 1),
        rc < pow4(k),
        code < 4,
    ensures
        r == rc as nat / 4 + code * pow4((k - 1) as nat),
        r < pow4(k),
{
    let s: u64 = shift as u64;
    proof {
        lemma_u64_pow2_no_overflow(s as nat);
        lemma_pow2_pos(s as nat);
        lemma_u64_shr_is_div(rc, 2);
        lemma2_to64();
        assert(rc >> 2 == rc as nat / 4);
        lemma_pow4_unfold(k);
        assert(pow4(k) == 4 * pow4((k - 1) as nat));
        let p = pow2(s as nat) as int;
        assert(p == pow4((k - 1) as nat));
        assert(rc / 4 < p) by (nonlinear_arith)
            requires
                rc < 4 * p,
                p >= 1,
                rc >= 0,
        ;
        assert(code * p <= 3 * p) by (nonlinear_arith)
            requires
                code < 4,
                p >= 1,
        ;
        assert(4 * pow2(s as nat) == pow2(s as nat + 2)) by {
            lemma_pow2_adds(s as nat, 2);
        }
        assert(pow2(s as nat + 2) <= pow2(64)) by {
            if s + 2 < 64 {
                lemma_pow2_strictly_increases(s as nat + 2, 64);
            }
        }
        assert(pow2(64) == 0x10000000000000000) by {
            lemma2_to64_rest();
        }
        lemma_u64_shl_is_mul(code as u64, s);
        assert(rc / 4 + code * p < 4 * p) by (nonlinear_arith)
            requires
                rc / 4 < p,
                code < 4,
                p >= 1,
        ;
    }
    (rc >> 2u64) + ((code as u64) << s)
}

/// The low `t` codes of a register.
pub fn low_codes(reg: u64, tmask: u64, Ghost(t): Ghost<nat>) -> (r: u64)
    requires
        1 <= t <= 31,
        tmask == pow4(t) - 1,
    ensures
        r == reg as nat % pow4(t),
{
    let ghost s: nat = 2 * t;
    proof {
        lemma_u64_pow2_no_overflow(s);
        assert(tmask == low_bits_mask(s));
        lemma_u64_low_bits_mask_is_mod(reg, s);
        lemma_pow2_pos(s);
    }
    reg & tmask
}

/// The high codes of a register: everything above the low `e` codes.
pub fn high_codes(reg: u64, shift: usize, Ghost(e): Ghost<nat>) -> (r: u64)
    requires
        shift == 2 * e,
        e <= 31,
    ensures
        r == reg as nat / pow4(e),
{
    proof {
        lemma_u64_shr_is_div(reg, (2 * e) as u64);
    }
    reg >> (shift as u64)
}

/// Mask keeping the low `t` codes of a register.
pub fn full_code_mask(t: usize) -> (m: u64)
    requires
        1 <= t <= 31,
    ensures
        m == pow4(t as nat) - 1,
{
    let s: u64 = 2 * (t as u64);
    proof {
        lemma_u64_pow2_no_overflow(s as nat);
        lemma_u64_shl_is_mul(1u64, s);
    }
    (1u64 << s) - 1
}

} // verus!
