//! Properties of the chunking machine, proved once and for all against
//! the specification that `Chunker` is verified to implement.

use vstd::prelude::*;

use crate::chunker::chunk_step;
use crate::chunker::chunker_run;
use crate::chunker::in_skip_region;
use crate::chunker::lemma_step_wf;
use crate::chunker::mask_of;
use crate::chunker::st_wf;
use crate::chunker::zip_advance;
use crate::chunker::ChunkerOptions;
use crate::chunker::ChunkerState;
use crate::rolling::hash_step;
use crate::rolling::lemma_hash_step_rabin;
use crate::rolling::lemma_rabin_zero;
use crate::rolling::rabin_hash;
use crate::rolling::zero_window;

verus! {

/// The rolling-hash engine alone, without boundary policy: fold each
/// byte through the window rotation and register update.
pub open spec fn roll(window: Seq<u8>, h: u64, s: Seq<u8>) -> (Seq<u8>, u64)
    decreases s.len(),
{
    if s.len() == 0 {
        (window, h)
    } else {
        let h1 = hash_step(window.len(), h, window.first(), s.first());
        roll(window.skip(1).push(s.first()), h1, s.skip(1))
    }
}

/// A register that holds the reference hash of its window keeps doing
/// so: after rolling over `s`, the window holds the last `window_size`
/// bytes of the stream and the register holds exactly their reference
/// hash.
pub proof fn lemma_roll_tracks(window: Seq<u8>, h: u64, s: Seq<u8>)
    requires
        window.len() >= 1,
        h == rabin_hash(window),
    ensures
        roll(window, h, s).0 == (window + s).skip(s.len() as int),
        roll(window, h, s).1 == rabin_hash((window + s).skip(s.len() as int)),
    decreases s.len(),
{
    if s.len() == 0 {
        assert((window + s).skip(0) =~= window);
    } else {
        let b = s.first();
        let w1 = window.skip(1).push(b);
        lemma_hash_step_rabin(window, b);
        lemma_roll_tracks(w1, hash_step(window.len(), h, window.first(), b), s.skip(1));
        assert((w1 + s.skip(1)).skip(s.len() - 1) =~= (window + s).skip(s.len() as int));
    }
}

/// Rolling equivalence: starting from the reset state, the hash register
/// after feeding a stream equals the register after feeding only the
/// stream's last `window_size` bytes — the hash depends on nothing
/// before the window.
pub proof fn lemma_rolling_equivalence(window_size: nat, s: Seq<u8>)
    requires
        1 <= window_size <= s.len(),
    ensures
        roll(zero_window(window_size), 0, s).1 == roll(
            zero_window(window_size),
            0,
            s.skip(s.len() - window_size),
        ).1,
{
    let zw = zero_window(window_size);
    let t = s.skip(s.len() - window_size);
    lemma_rabin_zero(window_size);
    lemma_roll_tracks(zw, 0, s);
    lemma_roll_tracks(zw, 0, t);
    assert((zw + s).skip(s.len() as int) =~= t);
    assert((zw + t).skip(t.len() as int) =~= t);
}

/// Outside the fast-skip region, when no boundary fires, one chunker
/// step moves the hash register and window exactly as the rolling
/// engine does.
pub proof fn lemma_step_rolls(opts: ChunkerOptions, st: ChunkerState, b: u8)
    requires
        !in_skip_region(opts, st.pending.len(), zip_advance(opts, st.zip, b) == 4),
        chunk_step(opts, st, b).1 is None,
    ensures
        chunk_step(opts, st, b).0.window == roll(st.window, st.hash, seq![b]).0,
        chunk_step(opts, st, b).0.hash == roll(st.window, st.hash, seq![b]).1,
{
    assert(seq![b].first() == b);
    assert(seq![b].skip(1) =~= Seq::<u8>::empty());
    let h1 = hash_step(st.window.len(), st.hash, st.window.first(), b);
    assert(roll(st.window.skip(1).push(b), h1, Seq::<u8>::empty()).0 == st.window.skip(1).push(b));
    assert(roll(st.window, st.hash, seq![b]).0 == st.window.skip(1).push(b));
    assert(roll(st.window, st.hash, seq![b]).1 == h1);
}

/// Every state a run visits is well formed; in particular the hash
/// register held after any sequence of bytes is a valid remainder
/// modulo the fixed polynomial.
pub proof fn lemma_run_wf(opts: ChunkerOptions, st: ChunkerState, data: Seq<u8>)
    requires
        opts.valid(),
        st_wf(opts, st),
    ensures
        st_wf(opts, chunker_run(opts, st, data).0),
    decreases data.len(),
{
    if data.len() > 0 {
        lemma_step_wf(opts, st, data.first());
        lemma_run_wf(opts, chunk_step(opts, st, data.first()).0, data.skip(1));
    }
}

/// A run that closes no chunk, configured with no fast-skip region,
/// drives the hash register and window exactly as the rolling engine
/// does over the same bytes. Together with the rolling-equivalence
/// lemma: after feeding a cut-free stream, the chunker's register
/// equals the one obtained by feeding only the stream's last
/// `window_size` bytes from a reset.
pub proof fn lemma_run_rolls(opts: ChunkerOptions, st: ChunkerState, data: Seq<u8>)
    requires
        opts.window_size >= 1,
        opts.min_chunk == 0,
        chunker_run(opts, st, data).1 == Seq::<Seq<u8>>::empty(),
    ensures
        chunker_run(opts, st, data).0.hash == roll(st.window, st.hash, data).1,
        chunker_run(opts, st, data).0.window == roll(st.window, st.hash, data).0,
    decreases data.len(),
{
    if data.len() > 0 {
        let b = data.first();
        let sr = chunk_step(opts, st, b);
        if sr.1 is Some {
            assert(chunker_run(opts, st, data).1.len() > 0);
        }
        lemma_step_rolls(opts, st, b);
        lemma_run_rolls(opts, sr.0, data.skip(1));
        assert(roll(st.window, st.hash, data).1 == roll(sr.0.window, sr.0.hash, data.skip(1)).1);
    }
}

/// All the bytes of the chunks closed during a run, one after another.
pub open spec fn concat_all(cs: Seq<Seq<u8>>) -> Seq<u8>
    decreases cs.len(),
{
    if cs.len() == 0 {
        Seq::empty()
    } else {
        cs.first() + concat_all(cs.skip(1))
    }
}

/// Chunk coverage: the chunks a run closes, concatenated in order and
/// followed by the bytes still pending, are exactly the bytes that were
/// pending before plus the bytes fed. Boundaries partition the stream
/// with no gaps and no overlaps.
pub proof fn lemma_chunk_coverage(opts: ChunkerOptions, st: ChunkerState, data: Seq<u8>)
    ensures
        concat_all(chunker_run(opts, st, data).1) + chunker_run(opts, st, data).0.pending
            == st.pending + data,
    decreases data.len(),
{
    if data.len() == 0 {
        assert(concat_all(chunker_run(opts, st, data).1) =~= Seq::<u8>::empty());
        assert(Seq::<u8>::empty() + st.pending =~= st.pending + data);
    } else {
        let b = data.first();
        let sr = chunk_step(opts, st, b);
        let rr = chunker_run(opts, sr.0, data.skip(1));
        lemma_chunk_coverage(opts, sr.0, data.skip(1));
        match sr.1 {
            Some(c) => {
                assert((seq![c] + rr.1).first() == c);
                assert((seq![c] + rr.1).skip(1) =~= rr.1);
                assert(concat_all(seq![c] + rr.1) == c + concat_all(rr.1));
                assert(c == st.pending.push(b));
                assert(sr.0.pending =~= Seq::<u8>::empty());
                assert(Seq::<u8>::empty() + data.skip(1) =~= data.skip(1));
                assert((st.pending.push(b) + concat_all(rr.1)) + rr.0.pending =~= st.pending.push(
                    b,
                ) + (concat_all(rr.1) + rr.0.pending));
                assert(st.pending.push(b) + data.skip(1) =~= st.pending + data);
            },
            None => {
                assert(sr.0.pending == st.pending.push(b));
                assert(st.pending.push(b) + data.skip(1) =~= st.pending + data);
            },
        }
    }
}

/// Upper size bound: no chunk a run closes exceeds `max_chunk`. The
/// last hypothesis rules out the one degenerate corner — a window of a
/// single byte together with `min_chunk == max_chunk` — where the byte
/// that leaves the fast-skip region would already overshoot the cap.
pub proof fn lemma_chunk_max_bound(opts: ChunkerOptions, st: ChunkerState, data: Seq<u8>)
    requires
        opts.valid(),
        st_wf(opts, st),
        opts.min_chunk <= opts.max_chunk,
        opts.max_chunk >= 1,
        opts.min_chunk + 2 <= opts.max_chunk + opts.window_size,
    ensures
        forall|i: int|
            0 <= i < chunker_run(opts, st, data).1.len() ==> (#[trigger] chunker_run(
                opts,
                st,
                data,
            ).1[i]).len() <= opts.max_chunk,
    decreases data.len(),
{
    if data.len() > 0 {
        let b = data.first();
        let sr = chunk_step(opts, st, b);
        let rr = chunker_run(opts, sr.0, data.skip(1));
        lemma_step_wf(opts, st, b);
        lemma_chunk_max_bound(opts, sr.0, data.skip(1));
        match sr.1 {
            Some(c) => {
                assert(c.len() <= opts.max_chunk);
                assert(forall|i: int|
                    0 <= i < (seq![c] + rr.1).len() ==> (#[trigger] (seq![c] + rr.1)[i]) == (if i
                        == 0 {
                        c
                    } else {
                        rr.1[i - 1]
                    }));
            },
            None => {},
        }
    }
}

/// Lower size bound, stated for runs without ZIP boundary detection
/// (a signature match may cut arbitrarily small chunks): every chunk a
/// run closes has at least `min_chunk` bytes — the hash mask can only
/// cut once the minimum is reached, and the hard cap is no smaller.
/// The final stream-end chunk is not closed by a run, so it is not
/// constrained.
pub proof fn lemma_chunk_min_bound(opts: ChunkerOptions, st: ChunkerState, data: Seq<u8>)
    requires
        opts.valid(),
        st_wf(opts, st),
        !opts.zip_boundary,
        opts.min_chunk <= opts.max_chunk,
    ensures
        forall|i: int|
            0 <= i < chunker_run(opts, st, data).1.len() ==> opts.min_chunk <= (
            #[trigger] chunker_run(opts, st, data).1[i]).len(),
    decreases data.len(),
{
    if data.len() > 0 {
        let b = data.first();
        let sr = chunk_step(opts, st, b);
        let rr = chunker_run(opts, sr.0, data.skip(1));
        lemma_step_wf(opts, st, b);
        lemma_chunk_min_bound(opts, sr.0, data.skip(1));
        match sr.1 {
            Some(c) => {
                assert(zip_advance(opts, st.zip, b) != 4);
                assert(!in_skip_region(opts, st.pending.len(), false));
                assert(opts.min_chunk <= c.len());
                assert(forall|i: int|
                    0 <= i < (seq![c] + rr.1).len() ==> (#[trigger] (seq![c] + rr.1)[i]) == (if i
                        == 0 {
                        c
                    } else {
                        rr.1[i - 1]
                    }));
            },
            None => {},
        }
    }
}

/// Zip override: with boundary detection enabled, the byte that
/// completes the signature match closes a chunk at once, whatever the
/// chunk's size — smaller than the minimum included.
pub proof fn lemma_zip_override(opts: ChunkerOptions, st: ChunkerState, b: u8)
    requires
        opts.zip_boundary,
        zip_advance(opts, st.zip, b) == 4,
    ensures
        chunk_step(opts, st, b).1 == Some(st.pending.push(b)),
{
}

/// Feeding the whole 4-byte signature while the matcher is idle always
/// closes a chunk within those four bytes: either an ordinary boundary
/// fires on the way, or the completed match forces one on the last
/// byte. The matcher restarts from scratch after a mismatch, so an
/// occurrence overlapping a partial match is not covered.
pub proof fn lemma_zip_sequence_forces_cut(opts: ChunkerOptions, st: ChunkerState)
    requires
        opts.zip_boundary,
        st.zip == 0,
    ensures
        chunker_run(opts, st, seq![0x50u8, 0x4bu8, 0x03u8, 0x04u8]).1.len() >= 1,
{
    let s0 = seq![0x50u8, 0x4bu8, 0x03u8, 0x04u8];
    let s1 = seq![0x4bu8, 0x03u8, 0x04u8];
    let s2 = seq![0x03u8, 0x04u8];
    let s3 = seq![0x04u8];
    assert(s0.first() == 0x50u8 && s0.skip(1) =~= s1);
    assert(s1.first() == 0x4bu8 && s1.skip(1) =~= s2);
    assert(s2.first() == 0x03u8 && s2.skip(1) =~= s3);
    assert(s3.first() == 0x04u8 && s3.skip(1) =~= Seq::<u8>::empty());

    let a1 = chunk_step(opts, st, 0x50u8);
    let r1 = chunker_run(opts, a1.0, s1);
    assert(chunker_run(opts, st, s0).1 == (match a1.1 {
        Some(c) => seq![c] + r1.1,
        None => r1.1,
    }));
    if a1.1 is None {
        assert(a1.0.zip == 1);
        let a2 = chunk_step(opts, a1.0, 0x4bu8);
        let r2 = chunker_run(opts, a2.0, s2);
        assert(r1.1 == (match a2.1 {
            Some(c) => seq![c] + r2.1,
            None => r2.1,
        }));
        if a2.1 is None {
            assert(a2.0.zip == 2);
            let a3 = chunk_step(opts, a2.0, 0x03u8);
            let r3 = chunker_run(opts, a3.0, s3);
            assert(r2.1 == (match a3.1 {
                Some(c) => seq![c] + r3.1,
                None => r3.1,
            }));
            if a3.1 is None {
                assert(a3.0.zip == 3);
                let a4 = chunk_step(opts, a3.0, 0x04u8);
                let r4 = chunker_run(opts, a4.0, Seq::<u8>::empty());
                assert(r3.1 == (match a4.1 {
                    Some(c) => seq![c] + r4.1,
                    None => r4.1,
                }));
                lemma_zip_override(opts, a3.0, 0x04u8);
                assert(r3.1.len() >= 1);
            }
        }
    }
}

} // verus!
