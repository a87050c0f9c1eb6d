//! The two 256-entry reduction tables behind the rolling hash.
//!
//! `shift[b]` is the reduction contribution of the byte `b` that is about
//! to overflow the hash register on an 8-bit left shift; `drop[b]` is the
//! contribution byte `b` still has after `window_size` further byte
//! shifts, used to cancel a byte once it leaves the sliding window. Both
//! are pure functions of the fixed modulus polynomial and the window
//! size, so a table is immutable after construction and two tables built
//! for the same window size are identical.

use vstd::prelude::*;

use crate::gf2::gf_mulx;
use crate::gf2::gf_mulx_k;
use crate::gf2::POLYNOMIAL;

verus! {

/// Window size used when no other is configured.
pub const DEFAULT_WINDOW_SIZE: usize = 64;

/// The value of `shift[s]`: the remainder of `s * x^63` plus (XOR) the
/// truncated image of `s << 63`, so that XORing it into a freshly shifted
/// register replaces the lost top bits by their remainder.
pub open spec fn shift_entry(s: u64) -> u64 {
    gf_mulx_k(s, 63) ^ ((s & 1) << 63)
}

/// The value of `drop[b]`: the remainder of `b * x^(8 * window_size)`.
pub open spec fn drop_entry(window_size: nat, b: u64) -> u64 {
    gf_mulx_k(b, 8 * window_size)
}

/// Lookup tables for one window size.
#[derive(Debug)]
pub struct Table {
    pub shift: Vec<u64>,
    pub drop: Vec<u64>,
}

/// Table determinism: any two well-formed tables for the same window
/// size hold identical entries — construction is a pure function of
/// the window size.
pub proof fn lemma_table_deterministic(a: Table, b: Table, window_size: nat)
    requires
        a.wf(window_size),
        b.wf(window_size),
    ensures
        a.shift@ == b.shift@,
        a.drop@ == b.drop@,
{
    assert(a.shift@ =~= b.shift@);
    assert(a.drop@ =~= b.drop@);
}

/// One reduction step: multiply by `x` modulo the fixed polynomial.
fn mulx(r: u64) -> (res: u64)
    ensures
        res == gf_mulx(r),
{
    if r & 0x4000000000000000 != 0 {
        (r << 1u64) ^ POLYNOMIAL
    } else {
        r << 1u64
    }
}

impl Table {
    /// Both tables have 256 entries and every entry is the field element
    /// the specification assigns to its index, for this window size.
    pub open spec fn wf(self, window_size: nat) -> bool {
        &&& self.shift@.len() == 256
        &&& self.drop@.len() == 256
        &&& forall|i: int| 0 <= i < 256 ==> self.shift@[i] == shift_entry(i as u64)
        &&& forall|i: int| 0 <= i < 256 ==> self.drop@[i] == drop_entry(window_size, i as u64)
    }

    /// Build the tables for `window_size` by iterated reduction steps.
    pub fn new(window_size: usize) -> (t: Table)
        ensures
            t.wf(window_size as nat),
    {
        let mut shift: Vec<u64> = Vec::new();
        let mut drop: Vec<u64> = Vec::new();
        for i in 0..256usize
            invariant
                shift@.len() == i,
                drop@.len() == i,
                forall|j: int| 0 <= j < i ==> shift@[j] == shift_entry(j as u64),
                forall|j: int| 0 <= j < i ==> drop@[j] == drop_entry(window_size as nat, j as u64),
        {
            let mut r: u64 = i as u64;
            let mut k: usize = 0;
            while k < 63
                invariant
                    k <= 63,
                    r == gf_mulx_k(i as u64, k as nat),
                decreases 63 - k,
            {
                r = mulx(r);
                k = k + 1;
            }
            shift.push(r ^ (((i as u64) & 1) << 63u64));

            let mut d: u64 = i as u64;
            let mut steps: usize = 0;
            while steps < window_size
                invariant
                    steps <= window_size,
                    d == gf_mulx_k(i as u64, (8 * steps) as nat),
                decreases window_size - steps,
            {
                let mut j: usize = 0;
                while j < 8
                    invariant
                        j <= 8,
                        steps < window_size,
                        d == gf_mulx_k(i as u64, (8 * steps + j) as nat),
                    decreases 8 - j,
                {
                    d = mulx(d);
                    j = j + 1;
                }
                steps = steps + 1;
            }
            drop.push(d);
        }
        Table { shift, drop }
    }
}

} // verus!
