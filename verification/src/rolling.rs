//! The rolling hash: what the register means and why the O(1) update is
//! sound.
//!
//! `rabin_hash` gives the reference meaning of the hash register: the
//! remainder, modulo the fixed polynomial, of the bytes of the window
//! read oldest first (each byte contributing eight bits). `hash_step` is
//! the constant-time register update the chunker performs with the two
//! lookup tables. The central lemma, `lemma_hash_step_rabin`, shows one
//! update keeps the register equal to the reference hash of the window
//! contents after the oldest byte leaves and the new byte enters.

use vstd::prelude::*;

use crate::gf2::gf_mulx_k;
use crate::gf2::lemma_mulx_k_add;
use crate::gf2::lemma_mulx_k_linear;
use crate::gf2::lemma_mulx_k_reduced;
use crate::gf2::lemma_mulx_k_small;
use crate::gf2::lemma_mulx_k_zero;
use crate::gf2::lemma_xor_basics;
use crate::gf2::FIELD_BOUND;
use crate::table::drop_entry;
use crate::table::shift_entry;

verus! {

/// The reference hash of a byte sequence: fold each byte in by
/// multiplying the register by `x^8` (reduced) and adding the byte.
pub open spec fn rabin_hash(s: Seq<u8>) -> u64
    decreases s.len(),
{
    if s.len() == 0 {
        0
    } else {
        gf_mulx_k(rabin_hash(s.drop_last()), 8) ^ (s.last() as u64)
    }
}

/// A window of `n` zero bytes.
pub open spec fn zero_window(n: nat) -> Seq<u8> {
    Seq::new(n, |i: int| 0u8)
}

/// The constant-time register update: shift the register one byte left,
/// add the incoming byte, cancel the byte that aged out of the window,
/// and fold the overflowing top bits back in via the shift table.
pub open spec fn hash_step(window_size: nat, h: u64, dropped: u8, b: u8) -> u64 {
    (((h << 8) ^ (b as u64)) ^ drop_entry(window_size, dropped as u64)) ^ shift_entry(h >> 55)
}

/// Every reference hash is a reduced field element.
pub proof fn lemma_rabin_reduced(s: Seq<u8>)
    ensures
        rabin_hash(s) < FIELD_BOUND,
    decreases s.len(),
{
    if s.len() == 0 {
    } else {
        lemma_rabin_reduced(s.drop_last());
        lemma_mulx_k_reduced(rabin_hash(s.drop_last()), 8);
        let a = gf_mulx_k(rabin_hash(s.drop_last()), 8);
        let c = s.last() as u64;
        assert(a < 0x8000000000000000 && c < 0x100 ==> (a ^ c) < 0x8000000000000000)
            by (bit_vector);
    }
}

/// The hash of an all-zero window is zero.
pub proof fn lemma_rabin_zero(n: nat)
    ensures
        rabin_hash(zero_window(n)) == 0,
    decreases n,
{
    if n > 0 {
        assert(zero_window(n).drop_last() =~= zero_window((n - 1) as nat));
        lemma_rabin_zero((n - 1) as nat);
        lemma_mulx_k_zero(8);
        assert(0u64 ^ 0u64 == 0u64) by (bit_vector);
    }
}

/// Shifting a reduced register one byte left and folding the shift-table
/// entry of its top byte back in is exactly multiplication by `x^8`.
pub proof fn lemma_shift_step(h: u64)
    requires
        h < FIELD_BOUND,
    ensures
        gf_mulx_k(h, 8) == (h << 8) ^ shift_entry(h >> 55),
{
    let s = h >> 55;
    let low = h & 0x007fffffffffffff;
    assert(s < 0x100 && low < 0x0080000000000000 && h == low ^ (s << 55u64)) by (bit_vector)
        requires
            s == h >> 55,
            low == h & 0x007fffffffffffff,
            h < 0x8000000000000000u64,
    ;

    lemma_mulx_k_linear(low, (s << 55u64), 8);
    assert(gf_mulx_k(h, 8) == gf_mulx_k(low, 8) ^ gf_mulx_k((s << 55u64), 8));

    assert(low < (0x8000000000000000u64 >> 8u64)) by (bit_vector)
        requires low < 0x0080000000000000u64;
    lemma_mulx_k_small(low, 8);

    assert(s < (0x8000000000000000u64 >> 55u64)) by (bit_vector)
        requires s < 0x100u64;
    lemma_mulx_k_small(s, 55);
    lemma_mulx_k_add(s, 55, 8);
    assert(gf_mulx_k((s << 55u64), 8) == gf_mulx_k(s, 63));

    let m = gf_mulx_k(s, 63);
    assert((h << 8) == (low << 8u64) ^ ((s & 1) << 63u64)) by (bit_vector)
        requires
            s == h >> 55,
            low == h & 0x007fffffffffffff,
    ;
    let t = (s & 1) << 63u64;
    assert((low << 8u64) ^ m == (((low << 8u64) ^ t) ^ t) ^ m) by (bit_vector);
    assert((((low << 8u64) ^ t) ^ t) ^ m == ((low << 8u64) ^ t) ^ (m ^ t)) by (bit_vector);
}

/// Moving the oldest byte of a sequence out front: its hash is the hash
/// of the rest plus the byte's contribution aged by the length of the
/// rest.
pub proof fn lemma_rabin_prepend(d: u8, t: Seq<u8>)
    ensures
        rabin_hash(seq![d] + t) == rabin_hash(t) ^ gf_mulx_k(d as u64, 8 * t.len()),
    decreases t.len(),
{
    if t.len() == 0 {
        assert(seq![d] + t =~= seq![d]);
        assert(seq![d].drop_last() =~= Seq::<u8>::empty());
        assert(rabin_hash(Seq::<u8>::empty()) == 0);
        assert(seq![d].len() == 1 && seq![d].last() == d);
        assert(rabin_hash(seq![d]) == gf_mulx_k(0, 8) ^ (d as u64));
        lemma_mulx_k_zero(8);
        assert(0u64 ^ (d as u64) == (d as u64)) by (bit_vector);
        assert(rabin_hash(t) == 0 && gf_mulx_k(d as u64, 8 * t.len()) == d as u64);
    } else {
        let u = t.drop_last();
        let b = t.last();
        lemma_rabin_prepend(d, u);
        assert((seq![d] + t).drop_last() =~= seq![d] + u);
        assert((seq![d] + t).last() == b);
        lemma_mulx_k_linear(rabin_hash(u), gf_mulx_k(d as u64, 8 * u.len()), 8);
        lemma_mulx_k_add(d as u64, 8 * u.len(), 8);
        let a = gf_mulx_k(rabin_hash(u), 8);
        let c = gf_mulx_k(d as u64, 8 * t.len());
        let bb = b as u64;
        assert(rabin_hash(seq![d] + t) == gf_mulx_k(rabin_hash(seq![d] + u), 8) ^ bb);
        assert(gf_mulx_k(rabin_hash(seq![d] + u), 8) == gf_mulx_k(
            rabin_hash(u) ^ gf_mulx_k(d as u64, 8 * u.len()),
            8,
        ));
        assert(8 * u.len() + 8 == 8 * t.len());
        assert(gf_mulx_k(gf_mulx_k(d as u64, 8 * u.len()), 8) == c);
        assert(rabin_hash(seq![d] + t) == (a ^ c) ^ bb);
        assert((a ^ c) ^ bb == (a ^ bb) ^ c) by (bit_vector);
        assert(rabin_hash(t) == a ^ bb);
    }
}

/// One constant-time update is correct: if the register holds the
/// reference hash of the window, then after dropping the oldest byte and
/// appending the new one it holds the reference hash of the new window.
pub proof fn lemma_hash_step_rabin(win: Seq<u8>, b: u8)
    ensures
        hash_step(win.len(), rabin_hash(win), win.first(), b) == rabin_hash(
            win.skip(1).push(b),
        ) || win.len() == 0,
{
    if win.len() == 0 {
        return ;
    }
    let w = win.len();
    let h = rabin_hash(win);
    let t = win.skip(1);
    let d = win.first();
    lemma_rabin_reduced(win);
    lemma_shift_step(h);
    assert(win =~= seq![d] + t);
    lemma_rabin_prepend(d, t);
    // h == rabin_hash(t) ^ gf_mulx_k(d, 8 * (w - 1))
    lemma_mulx_k_linear(rabin_hash(t), gf_mulx_k(d as u64, 8 * t.len()), 8);
    lemma_mulx_k_add(d as u64, 8 * t.len(), 8);
    assert(8 * t.len() + 8 == 8 * w);
    // gf_mulx_k(h, 8) == gf_mulx_k(rabin_hash(t), 8) ^ gf_mulx_k(d, 8 * w)
    assert(t.push(b).drop_last() =~= t);
    assert(t.push(b).last() == b);
    // rabin_hash(t.push(b)) == gf_mulx_k(rabin_hash(t), 8) ^ b
    let a = gf_mulx_k(rabin_hash(t), 8);
    let c = gf_mulx_k(d as u64, 8 * w);
    let bb = b as u64;
    let hs = h << 8;
    let se = shift_entry(h >> 55);
    // hash_step = ((hs ^ bb) ^ c) ^ se and hs ^ se == a ^ c
    assert(((hs ^ bb) ^ c) ^ se == (hs ^ se) ^ (bb ^ c)) by (bit_vector);
    assert((hs ^ se) ^ (bb ^ c) == ((a ^ c) ^ c) ^ bb) by (bit_vector)
        requires
            (hs ^ se) == a ^ c,
    ;
    lemma_xor_basics(a, c, bb);
    assert(hash_step(w, h, d, b) == a ^ bb);
}

} // verus!
