//! The streaming chunker: a state machine that consumes bytes, maintains
//! the rolling hash over a sliding window, decides chunk boundaries and
//! emits one content digest per chunk.
//!
//! The behaviour is fixed by a specification-level machine: `chunk_step`
//! describes what one ingested byte does to the abstract state
//! (`ChunkerState`) and whether it closes a chunk, and `chunker_run`
//! folds it over a byte sequence. The executable `Chunker` is proved to
//! track that machine exactly, so every property of the chunk stream can
//! be read off the specification alone.

use vstd::prelude::*;

use crate::gf2::FIELD_BOUND;
use crate::rolling::hash_step;
use crate::rolling::lemma_hash_step_rabin;
use crate::rolling::lemma_rabin_reduced;
use crate::rolling::lemma_rabin_zero;
use crate::rolling::rabin_hash;
use crate::rolling::zero_window;
use crate::table::Table;

verus! {

/// Configuration supplied once at construction.
#[derive(Debug)]
pub struct ChunkerOptions {
    pub window_size: usize,
    pub min_chunk: usize,
    pub avg_chunk: usize,
    pub max_chunk: usize,
    pub zip_boundary: bool,
}

impl ChunkerOptions {
    /// A usable configuration: a nonempty window, and an average chunk
    /// size that is a power of two, since its bit mask is the boundary
    /// test.
    pub open spec fn valid(self) -> bool {
        &&& self.window_size >= 1
        &&& self.avg_chunk >= 1
        &&& (self.avg_chunk & (self.avg_chunk - 1) as usize) == 0
    }
}

impl Default for ChunkerOptions {
    /// The default configuration: 64-byte window, 8 KiB minimum, 16 KiB
    /// average, 32 KiB maximum, no ZIP boundary detection.
    fn default() -> (opts: Self)
        ensures
            opts == (ChunkerOptions {
                window_size: 64,
                min_chunk: 8192,
                avg_chunk: 16384,
                max_chunk: 32768,
                zip_boundary: false,
            }),
            opts.valid(),
    {
        proof {
            assert(16384usize & 16383usize == 0) by (bit_vector);
        }
        ChunkerOptions {
            window_size: 64,
            min_chunk: 8 * 1024,
            avg_chunk: 16 * 1024,
            max_chunk: 32 * 1024,
            zip_boundary: false,
        }
    }
}

/// One completed chunk: its byte count and the digest of exactly its
/// bytes.
#[derive(Debug)]
pub struct Chunk {
    pub size: usize,
    pub digest: Vec<u8>,
}

/// The digest of a byte sequence as computed by the content hash. The
/// value is fixed by the hash function; contracts only relate digests to
/// the bytes they were computed from.
pub uninterp spec fn blake2b18_of(bytes: Seq<u8>) -> Seq<u8>;

/// Relies on `blake2::Blake2b` with an 18-byte output size: the digest
/// depends on the input bytes alone, and has exactly 18 bytes.
#[verifier::external_body]
fn blake2b18(bytes: &Vec<u8>) -> (r: Vec<u8>)
    ensures
        r@ == blake2b18_of(bytes@),
        r@.len() == 18,
{
    let mut hasher: blake2::Blake2b<blake2::digest::consts::U18> = blake2::Digest::new();
    blake2::Digest::update(&mut hasher, bytes.as_slice());
    blake2::Digest::finalize(hasher).as_slice().to_vec()
}

/// The whole-stream digest of a byte sequence, as computed by the
/// 64-byte stream hash. The value is fixed by the hash function;
/// contracts only relate digests to the bytes they were computed from.
pub uninterp spec fn blake2b64_of(bytes: Seq<u8>) -> Seq<u8>;

/// The incremental state of the whole-stream hasher. It belongs to the
/// outside hash implementation and is opaque to the verifier; what it
/// stands for is carried by the ghost byte sequence beside it in
/// `StreamAcc`.
#[verifier::external_body]
pub struct StreamDigestState {
    inner: blake2::Blake2b<blake2::digest::consts::U64>,
}

/// An incremental whole-stream digest: the opaque hasher state, paired
/// with the ghost sequence of bytes absorbed since it was fresh.
pub struct StreamAcc {
    pub state: StreamDigestState,
    pub fed: Ghost<Seq<u8>>,
}

impl StreamAcc {
    /// Relies on `blake2::Digest::new`: a fresh hasher has absorbed
    /// nothing.
    #[verifier::external_body]
    pub fn new() -> (acc: StreamAcc)
        ensures
            acc.fed@ == Seq::<u8>::empty(),
    {
        StreamAcc {
            state: StreamDigestState { inner: blake2::Digest::new() },
            fed: Ghost(Seq::empty()),
        }
    }

    /// Relies on `blake2::Digest::update`: absorbing a slice appends
    /// its bytes to the digested stream.
    #[verifier::external_body]
    pub fn feed(&mut self, data: &[u8])
        ensures
            final(self).fed@ == old(self).fed@ + data@,
    {
        blake2::Digest::update(&mut self.state.inner, data);
    }

    /// Relies on `blake2::Digest::finalize` (and `new`): the result is
    /// the 64-byte digest of exactly the absorbed bytes, a function of
    /// those bytes alone; a fresh hasher replaces the consumed one.
    #[verifier::external_body]
    pub fn take(&mut self) -> (r: Vec<u8>)
        ensures
            r@ == blake2b64_of(old(self).fed@),
            r@.len() == 64,
            final(self).fed@ == Seq::<u8>::empty(),
    {
        let state = core::mem::replace(&mut self.state.inner, blake2::Digest::new());
        blake2::Digest::finalize(state).as_slice().to_vec()
    }
}

/// Whole-stream accounting, produced once per `finalize_reset` call:
/// the number of bytes processed since the last reset and the 64-byte
/// digest over exactly those bytes, independent of chunk boundaries.
#[derive(Debug)]
pub struct Stats {
    pub size: usize,
    pub digest: Vec<u8>,
}

/// The byte at position `i` of the 4-byte ZIP local-file-header
/// signature.
pub open spec fn zip_sig(i: nat) -> u8 {
    if i == 0 {
        0x50
    } else if i == 1 {
        0x4b
    } else if i == 2 {
        0x03
    } else {
        0x04
    }
}

fn zip_sig_byte(i: usize) -> (b: u8)
    requires
        i < 4,
    ensures
        b == zip_sig(i as nat),
{
    if i == 0 {
        0x50
    } else if i == 1 {
        0x4b
    } else if i == 2 {
        0x03
    } else {
        0x04
    }
}

/// The abstract state of a chunker between two bytes: the hash register,
/// the window contents oldest byte first, the signature match progress,
/// and the bytes of the chunk currently open.
#[verifier::ext_equal]
pub ghost struct ChunkerState {
    pub hash: u64,
    pub window: Seq<u8>,
    pub zip: nat,
    pub pending: Seq<u8>,
}

/// The state right after construction, or right after a chunk is cut:
/// zero register, all-zero window, no match progress, no pending bytes.
pub open spec fn initial_state(opts: ChunkerOptions) -> ChunkerState {
    ChunkerState {
        hash: 0,
        window: zero_window(opts.window_size as nat),
        zip: 0,
        pending: Seq::empty(),
    }
}

/// How one byte advances the signature matcher: when detection is on and
/// no full match is held, the counter advances on the expected byte and
/// falls back to zero on any other.
pub open spec fn zip_advance(opts: ChunkerOptions, z: nat, b: u8) -> nat {
    if opts.zip_boundary && z < 4 {
        if zip_sig(z) == b {
            z + 1
        } else {
            0
        }
    } else {
        z
    }
}

/// The fast-skip region: while the open chunk is still a full window
/// short of the minimum size and no signature match forces an early
/// cut, the hash and window are not maintained — no boundary can fire
/// before the minimum, and resuming a full window early leaves the
/// window completely warmed by the time a cut first becomes legal.
pub open spec fn in_skip_region(opts: ChunkerOptions, size: nat, seen: bool) -> bool {
    size + opts.window_size <= opts.min_chunk && !seen
}

/// The boundary mask: the low bits of the hash are compared against this
/// all-ones pattern of `log2(avg_chunk)` bits.
pub open spec fn mask_of(opts: ChunkerOptions) -> u64 {
    (opts.avg_chunk - 1) as u64
}

/// What one ingested byte does: advance the signature matcher, append
/// the byte to the open chunk, maintain hash and window unless in the
/// fast-skip region, and cut the chunk if a signature match or the
/// maximum size says so, or if the minimum size is reached and the low
/// bits of the hash all equal the mask. Returns the next state and the
/// bytes of the chunk closed by this byte, if any.
pub open spec fn chunk_step(opts: ChunkerOptions, st: ChunkerState, b: u8) -> (
    ChunkerState,
    Option<Seq<u8>>,
) {
    let z = zip_advance(opts, st.zip, b);
    let seen = z == 4;
    let pending = st.pending.push(b);
    if in_skip_region(opts, st.pending.len(), seen) {
        (ChunkerState { hash: st.hash, window: st.window, zip: z, pending }, None)
    } else {
        let h = hash_step(st.window.len(), st.hash, st.window.first(), b);
        if seen || pending.len() >= opts.max_chunk || (pending.len() >= opts.min_chunk && (h
            & mask_of(opts)) == mask_of(opts)) {
            (initial_state(opts), Some(pending))
        } else {
            (
                ChunkerState { hash: h, window: st.window.skip(1).push(b), zip: z, pending },
                None,
            )
        }
    }
}

/// `chunk_step` folded over a byte sequence: the state after all bytes,
/// and the contents of every chunk closed along the way, in stream
/// order.
pub open spec fn chunker_run(opts: ChunkerOptions, st: ChunkerState, data: Seq<u8>) -> (
    ChunkerState,
    Seq<Seq<u8>>,
)
    decreases data.len(),
{
    if data.len() == 0 {
        (st, Seq::empty())
    } else {
        let sr = chunk_step(opts, st, data.first());
        let rr = chunker_run(opts, sr.0, data.skip(1));
        (
            rr.0,
            match sr.1 {
                Some(c) => seq![c] + rr.1,
                None => rr.1,
            },
        )
    }
}

/// The states the machine actually visits. The hash register always
/// holds the reference hash of the window, and in particular is a
/// reduced field element; a full signature match never survives a step;
/// the open chunk never grows past both bounds.
pub open spec fn st_wf(opts: ChunkerOptions, st: ChunkerState) -> bool {
    &&& st.window.len() == opts.window_size
    &&& st.hash == rabin_hash(st.window)
    &&& st.hash < FIELD_BOUND
    &&& st.zip <= 3
    &&& (!opts.zip_boundary ==> st.zip == 0)
    &&& (st.pending.len() == 0 || st.pending.len() + opts.window_size <= opts.min_chunk + 1
        || st.pending.len() < opts.max_chunk)
}

/// The initial state is well formed.
pub proof fn lemma_initial_wf(opts: ChunkerOptions)
    requires
        opts.valid(),
    ensures
        st_wf(opts, initial_state(opts)),
{
    lemma_rabin_zero(opts.window_size as nat);
}

/// Every step preserves well-formedness; in particular every hash value
/// the machine ever holds is a valid remainder modulo the fixed
/// polynomial.
pub proof fn lemma_step_wf(opts: ChunkerOptions, st: ChunkerState, b: u8)
    requires
        opts.valid(),
        st_wf(opts, st),
    ensures
        st_wf(opts, chunk_step(opts, st, b).0),
{
    let z = zip_advance(opts, st.zip, b);
    let seen = z == 4;
    let pending = st.pending.push(b);
    if in_skip_region(opts, st.pending.len(), seen) {
    } else {
        let h = hash_step(st.window.len(), st.hash, st.window.first(), b);
        if seen || pending.len() >= opts.max_chunk || (pending.len() >= opts.min_chunk && (h
            & mask_of(opts)) == mask_of(opts)) {
            lemma_initial_wf(opts);
        } else {
            lemma_hash_step_rabin(st.window, b);
            lemma_rabin_reduced(st.window.skip(1).push(b));
        }
    }
}

/// Splitting a run at its last byte: running over `s.push(b)` is running
/// over `s` and then stepping on `b`.
pub proof fn lemma_run_snoc(opts: ChunkerOptions, st: ChunkerState, s: Seq<u8>, b: u8)
    ensures
        chunker_run(opts, st, s.push(b)).0 == chunk_step(opts, chunker_run(opts, st, s).0, b).0,
        chunker_run(opts, st, s.push(b)).1 == (match chunk_step(
            opts,
            chunker_run(opts, st, s).0,
            b,
        ).1 {
            Some(c) => chunker_run(opts, st, s).1.push(c),
            None => chunker_run(opts, st, s).1,
        }),
    decreases s.len(),
{
    if s.len() == 0 {
        assert(s.push(b).len() == 1);
        assert(s.push(b).first() == b);
        assert(s.push(b).skip(1) =~= Seq::<u8>::empty());
        let sr = chunk_step(opts, st, b);
        assert(chunker_run(opts, sr.0, Seq::<u8>::empty()).0 == sr.0);
        assert(chunker_run(opts, sr.0, Seq::<u8>::empty()).1 == Seq::<Seq<u8>>::empty());
        assert(chunker_run(opts, st, s).0 == st);
        assert(chunker_run(opts, st, s).1 == Seq::<Seq<u8>>::empty());
        if sr.1 is Some {
            assert(seq![sr.1->Some_0] + Seq::<Seq<u8>>::empty() =~= Seq::<Seq<u8>>::empty().push(
                sr.1->Some_0,
            ));
        }
    } else {
        assert(s.push(b).first() == s.first());
        assert(s.push(b).skip(1) =~= s.skip(1).push(b));
        let sr = chunk_step(opts, st, s.first());
        lemma_run_snoc(opts, sr.0, s.skip(1), b);
        let rr = chunker_run(opts, sr.0, s.skip(1));
        let last = chunk_step(opts, chunker_run(opts, st, s).0, b);
        if sr.1 is Some {
            if last.1 is Some {
                assert(seq![sr.1->Some_0] + rr.1.push(last.1->Some_0) =~= (seq![sr.1->Some_0]
                    + rr.1).push(last.1->Some_0));
            }
        }
    }
}

/// A chunk record matches a chunk's bytes when it reports their count
/// and their digest.
pub open spec fn chunks_match(cs: Seq<Chunk>, contents: Seq<Seq<u8>>) -> bool {
    &&& cs.len() == contents.len()
    &&& forall|i: int|
        0 <= i < cs.len() ==> (#[trigger] cs[i]).size as nat == contents[i].len()
            && cs[i].digest@ == blake2b18_of(contents[i]) && cs[i].digest@.len() == 18
}

/// The streaming chunker. The open chunk's bytes are kept in
/// `pending`, bounded by the size caps, and digested when the chunk
/// closes, rather than held as an incremental hasher state; the
/// resulting digests are the same. The whole-stream digest is kept
/// incrementally in `stream`, with `total` counting the bytes fed
/// since the last reset of the stream accounting.
pub struct Chunker {
    pub table: Table,
    pub options: ChunkerOptions,
    pub hash: u64,
    pub hash_mask: u64,
    pub window: Vec<u8>,
    pub window_offset: usize,
    pub pending: Vec<u8>,
    pub zip_header_offset: usize,
    pub stream: StreamAcc,
    pub total: usize,
}

impl View for Chunker {
    type V = ChunkerState;

    /// The abstract state: the window buffer is a ring, read here in
    /// logical order, oldest byte first.
    open spec fn view(&self) -> ChunkerState {
        ChunkerState {
            hash: self.hash,
            window: self.window@.skip(self.window_offset as int) + self.window@.take(
                self.window_offset as int,
            ),
            zip: self.zip_header_offset as nat,
            pending: self.pending@,
        }
    }
}

fn zeroed_vec(n: usize) -> (v: Vec<u8>)
    ensures
        v@ == zero_window(n as nat),
{
    let mut v: Vec<u8> = Vec::new();
    let mut i: usize = 0;
    while i < n
        invariant
            i <= n,
            v@.len() == i,
            forall|j: int| 0 <= j < i ==> v@[j] == 0u8,
        decreases n - i,
    {
        v.push(0);
        i = i + 1;
    }
    proof {
        assert(v@ =~= zero_window(n as nat));
    }
    v
}

/// Rotating the ring buffer: overwriting the slot at the cursor with the
/// new byte and advancing the cursor drops the oldest byte of the
/// logical window and appends the new one.
proof fn lemma_window_rotate(raw: Seq<u8>, o: int, b: u8)
    requires
        0 <= o < raw.len(),
    ensures
        ({
            let upd = raw.update(o, b);
            let o2 = if o + 1 == raw.len() {
                0int
            } else {
                o + 1
            };
            upd.skip(o2) + upd.take(o2) == (raw.skip(o) + raw.take(o)).skip(1).push(b)
        }),
{
    let upd = raw.update(o, b);
    let o2 = if o + 1 == raw.len() {
        0int
    } else {
        o + 1
    };
    assert(upd.skip(o2) + upd.take(o2) =~= (raw.skip(o) + raw.take(o)).skip(1).push(b));
}

impl Chunker {
    /// The representation invariant tying the executable fields to the
    /// abstract machine.
    pub open spec fn wf(self) -> bool {
        &&& self.options.valid()
        &&& self.hash_mask == mask_of(self.options)
        &&& self.window@.len() == self.options.window_size
        &&& self.window_offset < self.options.window_size
        &&& self.table.wf(self.options.window_size as nat)
        &&& st_wf(self.options, self@)
        &&& self.total as nat == self.stream.fed@.len()
    }

    /// Build a chunker for the given configuration, in the initial
    /// state.
    pub fn new(options: ChunkerOptions) -> (c: Chunker)
        requires
            options.valid(),
        ensures
            c.wf(),
            c.options == options,
            c@ == initial_state(options),
            c.window_offset == 0,
            c.stream.fed@ == Seq::<u8>::empty(),
            c.total == 0,
    {
        let table = Table::new(options.window_size);
        let window = zeroed_vec(options.window_size);
        let hash_mask = (options.avg_chunk - 1) as u64;
        let c = Chunker {
            table,
            options,
            hash: 0,
            hash_mask,
            window,
            window_offset: 0,
            pending: Vec::new(),
            zip_header_offset: 0,
            stream: StreamAcc::new(),
            total: 0,
        };
        proof {
            lemma_initial_wf(options);
            assert(c@.window =~= zero_window(options.window_size as nat));
            assert(c@ =~= initial_state(options));
        }
        c
    }

    /// Feed a slice of stream bytes. The chunker ends in the state the
    /// abstract machine reaches over these bytes, and the returned
    /// records describe exactly the chunks the machine closed: their
    /// sizes, and the digest of precisely each chunk's bytes.
    pub fn update(&mut self, data: &[u8]) -> (chunks: Vec<Chunk>)
        requires
            old(self).wf(),
            old(self).total + data@.len() <= usize::MAX,
        ensures
            final(self).wf(),
            final(self).options == old(self).options,
            final(self)@ == chunker_run(old(self).options, old(self)@, data@).0,
            chunks_match(chunks@, chunker_run(old(self).options, old(self)@, data@).1),
            final(self).stream.fed@ == old(self).stream.fed@ + data@,
            final(self).total == old(self).total + data@.len(),
    {
        let ghost opts = self.options;
        let ghost st0 = self@;
        self.stream.feed(data);
        self.total = self.total + data.len();
        let ghost stream_now = self.stream;
        let ghost total_now = self.total;
        let mut chunks: Vec<Chunk> = Vec::new();
        let mut i: usize = 0;
        while i < data.len()
            invariant
                self.wf(),
                self.options == opts,
                self.stream == stream_now,
                self.total == total_now,
                i <= data.len(),
                self@ == chunker_run(opts, st0, data@.take(i as int)).0,
                chunks_match(chunks@, chunker_run(opts, st0, data@.take(i as int)).1),
            decreases data.len() - i,
        {
            let ghost prev = self@;
            let ghost prev_contents = chunker_run(opts, st0, data@.take(i as int)).1;
            let b = data[i];
            proof {
                lemma_run_snoc(opts, st0, data@.take(i as int), b);
                assert(data@.take(i as int).push(b) =~= data@.take(i + 1));
            }
            let ghost stp = chunk_step(opts, prev, b);
            proof {
                lemma_step_wf(opts, prev, b);
            }

            if self.options.zip_boundary && self.zip_header_offset < 4 {
                if zip_sig_byte(self.zip_header_offset) == b {
                    self.zip_header_offset = self.zip_header_offset + 1;
                } else {
                    self.zip_header_offset = 0;
                }
            }
            let seen = self.zip_header_offset == 4;
            proof {
                assert(self.zip_header_offset as nat == zip_advance(opts, prev.zip, b));
            }
            let pre_len = self.pending.len();
            self.pending.push(b);

            if !seen && self.options.min_chunk >= self.options.window_size && pre_len
                <= self.options.min_chunk - self.options.window_size {
                proof {
                    assert(in_skip_region(opts, prev.pending.len(), seen));
                    assert(self@ =~= stp.0);
                }
            } else {
                proof {
                    assert(!in_skip_region(opts, prev.pending.len(), seen));
                }
                let w = self.options.window_size;
                let h_old = self.hash;
                let ghost raw_before = self.window@;
                let ghost o_before = self.window_offset as int;
                let d_idx = self.window[self.window_offset] as usize;
                proof {
                    assert((h_old >> 55) < 256) by (bit_vector)
                        requires h_old < 0x8000000000000000u64;
                }
                let s_idx = (self.hash >> 55) as usize;
                self.window[self.window_offset] = b;
                self.window_offset = if self.window_offset + 1 == w {
                    0
                } else {
                    self.window_offset + 1
                };
                self.hash = (self.hash << 8) ^ (b as u64) ^ self.table.drop[d_idx]
                    ^ self.table.shift[s_idx];
                proof {
                    assert(raw_before[o_before] == prev.window.first());
                    assert(s_idx as u64 == prev.hash >> 55);
                    assert(self.hash == hash_step(w as nat, prev.hash, prev.window.first(), b));
                }

                if seen || self.pending.len() >= self.options.max_chunk || (self.pending.len()
                    >= self.options.min_chunk && (self.hash & self.hash_mask)
                    == self.hash_mask) {
                    let digest = blake2b18(&self.pending);
                    chunks.push(Chunk { size: self.pending.len(), digest });
                    self.hash = 0;
                    self.zip_header_offset = 0;
                    self.pending = Vec::new();
                    self.window = zeroed_vec(w);
                    self.window_offset = 0;
                    proof {
                        assert(self@.window =~= zero_window(opts.window_size as nat));
                        assert(self@ =~= stp.0);
                        assert(stp.1 == Some(prev.pending.push(b)));
                    }
                } else {
                    proof {
                        lemma_window_rotate(raw_before, o_before, b);
                        assert(self@.window == raw_before.update(o_before, b).skip(
                            self.window_offset as int,
                        ) + raw_before.update(o_before, b).take(self.window_offset as int));
                        assert(self@ =~= stp.0);
                    }
                }
            }
            i = i + 1;
        }
        proof {
            assert(data@.take(data@.len() as int) =~= data@);
        }
        chunks
    }

    /// Close the open chunk, if any, and return it; the chunker is left
    /// in the initial state, keeping its configuration and tables.
    pub fn flush(&mut self) -> (r: Option<Chunk>)
        requires
            old(self).wf(),
        ensures
            final(self).wf(),
            final(self).options == old(self).options,
            final(self)@ == initial_state(old(self).options),
            final(self).window_offset == 0,
            final(self).stream == old(self).stream,
            final(self).total == old(self).total,
            match r {
                Some(c) => old(self)@.pending.len() > 0 && c.size as nat == old(
                    self,
                )@.pending.len() && c.digest@ == blake2b18_of(old(self)@.pending)
                    && c.digest@.len() == 18,
                None => old(self)@.pending.len() == 0,
            },
    {
        let r = if self.pending.len() > 0 {
            let digest = blake2b18(&self.pending);
            Some(Chunk { size: self.pending.len(), digest })
        } else {
            None
        };
        self.reset();
        r
    }

    /// End the logical stream: close the open chunk, if any, and
    /// return it together with the whole-stream statistics — the total
    /// byte count since the last reset of the accounting, and the
    /// 64-byte digest of exactly those bytes, independent of chunk
    /// boundaries. Both the chunk-local state and the whole-stream
    /// counters are reset, so the same instance can process a new
    /// stream with its configuration and tables retained.
    pub fn finalize_reset(&mut self) -> (r: (Option<Chunk>, Stats))
        requires
            old(self).wf(),
        ensures
            final(self).wf(),
            final(self).options == old(self).options,
            final(self)@ == initial_state(old(self).options),
            final(self).window_offset == 0,
            final(self).stream.fed@ == Seq::<u8>::empty(),
            final(self).total == 0,
            r.1.size == old(self).total,
            r.1.digest@ == blake2b64_of(old(self).stream.fed@),
            r.1.digest@.len() == 64,
            match r.0 {
                Some(c) => old(self)@.pending.len() > 0 && c.size as nat == old(
                    self,
                )@.pending.len() && c.digest@ == blake2b18_of(old(self)@.pending)
                    && c.digest@.len() == 18,
                None => old(self)@.pending.len() == 0,
            },
    {
        let last = self.flush();
        let size = self.total;
        let digest = self.stream.take();
        self.total = 0;
        (last, Stats { size, digest })
    }

    /// Drop all chunk-local state: zero register, zero window, no match
    /// progress, no pending bytes; the whole-stream accounting is not
    /// touched. Configuration and tables are kept.
    pub fn reset(&mut self)
        requires
            old(self).wf(),
        ensures
            final(self).wf(),
            final(self).options == old(self).options,
            final(self)@ == initial_state(old(self).options),
            final(self).window_offset == 0,
            final(self).stream == old(self).stream,
            final(self).total == old(self).total,
    {
        self.hash = 0;
        self.zip_header_offset = 0;
        self.pending = Vec::new();
        let w = self.options.window_size;
        self.window = zeroed_vec(w);
        self.window_offset = 0;
        proof {
            lemma_initial_wf(self.options);
            assert(self@.window =~= zero_window(self.options.window_size as nat));
            assert(self@ =~= initial_state(self.options));
        }
    }
}

} // verus!
