//! Arithmetic in the quotient of GF(2)[x] by the fixed modulus polynomial.
//!
//! A 64-bit word stands for a polynomial over GF(2): bit `i` is the
//! coefficient of `x^i`. Addition is XOR. The modulus `POLYNOMIAL` has bit
//! degree 64 (its highest set bit is bit 63), so a fully reduced remainder
//! has all bits above bit 62 clear, i.e. it is a value below `FIELD_BOUND`.
//!
//! Everything here is built from one primitive, `gf_mulx`: multiply a
//! reduced element by `x` and reduce once. Arbitrary shifts reduced modulo
//! the polynomial are iterated applications of it (`gf_mulx_k`), which is
//! how the lookup tables and the rolling hash are specified.

use vstd::prelude::*;

verus! {

/// The fixed modulus polynomial; not configurable.
pub const POLYNOMIAL: u64 = 0xbfe6b8a5bf378d83;

/// Strict upper bound (`2^63`) on reduced field elements: the modulus has
/// bit degree 64, so remainders have bit degree at most 63.
pub const FIELD_BOUND: u64 = 0x8000000000000000;

/// Multiply a reduced element by `x` and reduce: shift left one bit and,
/// if the result would reach bit 63 (the modulus' top bit), subtract
/// (XOR) the modulus.
pub open spec fn gf_mulx(r: u64) -> u64 {
    if r & 0x4000000000000000 != 0 {
        (r << 1) ^ POLYNOMIAL
    } else {
        r << 1
    }
}

/// Multiply a reduced element by `x^k`, reducing at every step.
pub open spec fn gf_mulx_k(r: u64, k: nat) -> u64
    decreases k,
{
    if k == 0 {
        r
    } else {
        gf_mulx(gf_mulx_k(r, (k - 1) as nat))
    }
}

/// Multiplication by `x` keeps elements reduced.
pub proof fn lemma_mulx_reduced(r: u64)
    requires
        r < FIELD_BOUND,
    ensures
        gf_mulx(r) < FIELD_BOUND,
{
    assert(r & 0x4000000000000000 != 0 ==> ((r << 1) ^ 0xbfe6b8a5bf378d83u64) < 0x8000000000000000)
        by (bit_vector)
        requires r < 0x8000000000000000u64;
    assert(r & 0x4000000000000000 == 0 ==> (r << 1) < 0x8000000000000000) by (bit_vector)
        requires r < 0x8000000000000000u64;
}

/// Multiplication by `x^k` keeps elements reduced.
pub proof fn lemma_mulx_k_reduced(r: u64, k: nat)
    requires
        r < FIELD_BOUND,
    ensures
        gf_mulx_k(r, k) < FIELD_BOUND,
    decreases k,
{
    if k > 0 {
        lemma_mulx_k_reduced(r, (k - 1) as nat);
        lemma_mulx_reduced(gf_mulx_k(r, (k - 1) as nat));
    }
}

/// Multiplication by `x` distributes over addition (XOR).
pub proof fn lemma_mulx_linear(a: u64, b: u64)
    ensures
        gf_mulx(a ^ b) == gf_mulx(a) ^ gf_mulx(b),
{
    assert((if (a ^ b) & 0x4000000000000000 != 0 {
        ((a ^ b) << 1) ^ 0xbfe6b8a5bf378d83u64
    } else {
        (a ^ b) << 1
    }) == (if a & 0x4000000000000000 != 0 {
        (a << 1) ^ 0xbfe6b8a5bf378d83u64
    } else {
        a << 1
    }) ^ (if b & 0x4000000000000000 != 0 {
        (b << 1) ^ 0xbfe6b8a5bf378d83u64
    } else {
        b << 1
    })) by (bit_vector);
}

/// Multiplication by `x^k` distributes over addition (XOR).
pub proof fn lemma_mulx_k_linear(a: u64, b: u64, k: nat)
    ensures
        gf_mulx_k(a ^ b, k) == gf_mulx_k(a, k) ^ gf_mulx_k(b, k),
    decreases k,
{
    if k > 0 {
        lemma_mulx_k_linear(a, b, (k - 1) as nat);
        lemma_mulx_linear(gf_mulx_k(a, (k - 1) as nat), gf_mulx_k(b, (k - 1) as nat));
    }
}

/// Exponents add: multiplying by `x^a` and then `x^b` is multiplying by
/// `x^(a+b)`.
pub proof fn lemma_mulx_k_add(r: u64, a: nat, b: nat)
    ensures
        gf_mulx_k(r, a + b) == gf_mulx_k(gf_mulx_k(r, a), b),
    decreases b,
{
    if b > 0 {
        lemma_mulx_k_add(r, a, (b - 1) as nat);
    }
}

/// Zero is fixed by multiplication by `x^k`.
pub proof fn lemma_mulx_k_zero(k: nat)
    ensures
        gf_mulx_k(0, k) == 0,
    decreases k,
{
    if k > 0 {
        lemma_mulx_k_zero((k - 1) as nat);
        assert(0u64 & 0x4000000000000000 == 0) by (bit_vector);
        assert(0u64 << 1 == 0) by (bit_vector);
    }
}

/// While the value stays below the modulus' degree, multiplying by `x^k`
/// is a plain left shift: no reduction fires.
pub proof fn lemma_mulx_k_small(r: u64, k: u64)
    requires
        k <= 63,
        r < (0x8000000000000000u64 >> k),
    ensures
        gf_mulx_k(r, k as nat) == r << k,
    decreases k,
{
    if k == 0 {
        assert(r << 0u64 == r) by (bit_vector);
    } else {
        assert(r < (0x8000000000000000u64 >> ((k - 1) as u64)) && (r << ((k - 1) as u64)) < (
        0x8000000000000000u64 >> 1)) by (bit_vector)
            requires k >= 1 && k <= 63 && r < (0x8000000000000000u64 >> k);
        lemma_mulx_k_small(r, (k - 1) as u64);
        assert((r << ((k - 1) as u64)) & 0x4000000000000000 == 0 && ((r << ((k - 1) as u64)) << 1)
            == (r << k)) by (bit_vector)
            requires k >= 1 && k <= 63 && (r << ((k - 1) as u64)) < (0x8000000000000000u64 >> 1);
    }
}

/// Basic XOR algebra, packaged for reuse on opaque field elements.
pub proof fn lemma_xor_basics(a: u64, b: u64, c: u64)
    ensures
        a ^ b == b ^ a,
        (a ^ b) ^ c == a ^ (b ^ c),
        a ^ 0 == a,
        a ^ a == 0,
        (a ^ b) ^ b == a,
{
    assert(a ^ b == b ^ a && (a ^ b) ^ c == a ^ (b ^ c) && a ^ 0 == a && a ^ a == 0 && (a ^ b) ^ b
        == a) by (bit_vector);
}

} // verus!
