use better_blockmap::Chunk;
use better_blockmap::Chunker;
use better_blockmap::ChunkerOptions;
use better_blockmap::Table;
use blake2::Digest;

fn assert_is_field_value(hash: u64) {
    // A value is a reduced remainder modulo the degree-64 polynomial
    // exactly when its bit degree is below 64, i.e. bit 63 is clear.
    assert!(hash < 1u64 << 63);
}

#[test]
fn lib_it_computes_correct_table() {
    let table = Table::new(64);

    assert_eq!(table.shift[0], 0);
    assert_eq!(table.drop[0], 0);

    assert_eq!(table.shift[8], 4548086706303466141);
    assert_eq!(table.drop[8], 4180238687019168624);
}

#[test]
fn table_gen_it_computes_correct_table() {
    let table = Table::new(64);

    assert_eq!(table.shift[0], 0);
    assert_eq!(table.drop[0], 0);

    assert_eq!(table.shift[8], 4548086706303466141);
    assert_eq!(table.drop[8], 4180238687019168624);

    assert_eq!(table.shift[75], 14406569746831191669);
    assert_eq!(table.drop[75], 2590085172916931783);

    assert_eq!(table.shift[182], 8333038893256783518);
    assert_eq!(table.drop[182], 1155685809517156813);

    assert_eq!(table.shift[255], 14665969062442009581);
    assert_eq!(table.drop[255], 4429513017793006038);
}

#[test]
fn it_computes_rolling_hash() {
    let mut chunker = Chunker::new(ChunkerOptions {
        window_size: 16,
        min_chunk: 0,
        max_chunk: 1024 * 1024,
        // Make sure we never chunk for this test
        avg_chunk: 1024 * 1024,
        zip_boundary: false,
    });

    for i in 0..1024u64 {
        let chunks = chunker.update(&[(i & 0xff) as u8]);
        assert!(chunks.is_empty());
    }
    assert_is_field_value(chunker.hash);
    let rolling_hash = chunker.hash;

    chunker.reset();
    for i in (1024 - 16)..1024u64 {
        let chunks = chunker.update(&[(i & 0xff) as u8]);
        assert!(chunks.is_empty());
    }
    assert_is_field_value(chunker.hash);
    let non_rolling_hash = chunker.hash;
    assert_eq!(rolling_hash, non_rolling_hash);

    assert_eq!(rolling_hash, 1976718474515856107);
}

#[test]
fn it_computes_chunks() {
    let mut chunker = Chunker::new(ChunkerOptions::default());

    let size: u64 = 256 * 1024;

    let mut chunks = Vec::new();
    for _i in 0..size {
        chunks.append(&mut chunker.update(&[0x33, 0x31, 0x85]));
    }

    let last = chunker.flush();
    if let Some(x) = last {
        chunks.push(x);
    }

    assert_eq!(chunks.len(), 24);
}

#[test]
fn table_construction_is_deterministic() {
    let a = Table::new(64);
    let b = Table::new(64);
    assert_eq!(a.shift, b.shift);
    assert_eq!(a.drop, b.drop);

    let c = Table::new(16);
    let d = Table::new(16);
    assert_eq!(c.shift, d.shift);
    assert_eq!(c.drop, d.drop);
    // The shift table does not depend on the window size; the drop
    // table does.
    assert_eq!(a.shift, c.shift);
    assert_ne!(a.drop, c.drop);
}

fn lcg_bytes(n: usize, seed: u64) -> Vec<u8> {
    let mut state = seed;
    let mut out = Vec::with_capacity(n);
    for _ in 0..n {
        state = state.wrapping_mul(6364136223846793005).wrapping_add(1442695040888963407);
        out.push((state >> 33) as u8);
    }
    out
}

#[test]
fn chunks_cover_the_stream() {
    let data = lcg_bytes(200_000, 7);
    let mut chunker = Chunker::new(ChunkerOptions::default());

    let mut chunks: Vec<Chunk> = Vec::new();
    // Feed in uneven slices to cross update-call boundaries.
    let mut off = 0;
    let mut step = 1;
    while off < data.len() {
        let end = (off + step).min(data.len());
        chunks.append(&mut chunker.update(&data[off..end]));
        off = end;
        step = step % 4097 + 511;
    }
    if let Some(last) = chunker.flush() {
        chunks.push(last);
    }

    let total: usize = chunks.iter().map(|c| c.size).sum();
    assert_eq!(total, data.len());
    assert!(!chunks.is_empty());

    // Every chunk except the stream-end one respects the size bounds.
    let opts = ChunkerOptions::default();
    for c in &chunks[..chunks.len() - 1] {
        assert!(c.size <= opts.max_chunk);
        assert!(c.size >= opts.min_chunk);
    }
    assert!(chunks[chunks.len() - 1].size <= opts.max_chunk);
}

#[test]
fn zip_boundary_forces_small_chunk() {
    let mut options = ChunkerOptions::default();
    options.zip_boundary = true;
    let mut chunker = Chunker::new(options);

    let mut data = vec![0xAAu8; 100];
    data.extend_from_slice(&[0x50, 0x4b, 0x03, 0x04]);
    data.extend_from_slice(&[0xBBu8; 50]);

    let chunks = chunker.update(&data);
    // The byte completing the signature forces a boundary right there,
    // far below min_chunk.
    assert_eq!(chunks.len(), 1);
    assert_eq!(chunks[0].size, 104);
    let last = chunker.flush().expect("trailing bytes");
    assert_eq!(last.size, 50);
}

#[test]
fn zip_signature_ignored_when_disabled() {
    let mut chunker = Chunker::new(ChunkerOptions::default());

    let mut data = vec![0xAAu8; 100];
    data.extend_from_slice(&[0x50, 0x4b, 0x03, 0x04]);
    data.extend_from_slice(&[0xBBu8; 50]);

    let chunks = chunker.update(&data);
    assert!(chunks.is_empty());
    let last = chunker.flush().expect("pending bytes");
    assert_eq!(last.size, 154);
}

#[test]
fn chunk_digest_matches_content_hash() {
    let data = b"better blockmap digest check".to_vec();
    let mut chunker = Chunker::new(ChunkerOptions::default());
    let chunks = chunker.update(&data);
    assert!(chunks.is_empty());
    let last = chunker.flush().expect("pending bytes");
    assert_eq!(last.size, data.len());

    let mut hasher: blake2::Blake2b<blake2::digest::consts::U18> = blake2::Blake2b::new();
    hasher.update(&data);
    let expected = hasher.finalize().to_vec();
    assert_eq!(last.digest.len(), 18);
    assert_eq!(last.digest, expected);

    // A second stream split by a forced boundary digests each chunk's
    // own bytes, not the whole stream.
    let mut options = ChunkerOptions::default();
    options.zip_boundary = true;
    let mut chunker2 = Chunker::new(options);
    let mut data2 = vec![0x11u8; 10];
    data2.extend_from_slice(&[0x50, 0x4b, 0x03, 0x04]);
    data2.extend_from_slice(&[0x22u8; 5]);
    let chunks2 = chunker2.update(&data2);
    assert_eq!(chunks2.len(), 1);
    assert_eq!(chunks2[0].size, 14);
    let mut h1: blake2::Blake2b<blake2::digest::consts::U18> = blake2::Blake2b::new();
    h1.update(&data2[..14]);
    assert_eq!(chunks2[0].digest, h1.finalize().to_vec());
    let tail = chunker2.flush().expect("trailing bytes");
    let mut h2: blake2::Blake2b<blake2::digest::consts::U18> = blake2::Blake2b::new();
    h2.update(&data2[14..]);
    assert_eq!(tail.digest, h2.finalize().to_vec());
}

#[test]
fn below_threshold_stream_is_one_chunk() {
    // 8 KiB + 8 bytes of 0xFF with default options: the window is
    // saturated with 0xFF by the time a boundary first becomes legal,
    // the fixed register value there never matches the mask, and the
    // whole input is flushed as a single chunk of its exact size.
    let data = vec![0xFFu8; 8 * 1024 + 8];
    let mut chunker = Chunker::new(ChunkerOptions::default());
    let chunks = chunker.update(&data);
    assert!(chunks.is_empty());
    let last = chunker.flush().expect("pending bytes");
    assert_eq!(last.size, 8 * 1024 + 8);
    assert!(chunker.flush().is_none());
}

#[test]
fn short_stream_is_one_chunk() {
    // A stream that ends before the minimum chunk size is a single
    // flush-emitted chunk of the full length.
    let data = vec![0x5Au8; 4 * 1024];
    let mut chunker = Chunker::new(ChunkerOptions::default());
    let chunks = chunker.update(&data);
    assert!(chunks.is_empty());
    let last = chunker.flush().expect("pending bytes");
    assert_eq!(last.size, 4 * 1024);
    assert!(chunker.flush().is_none());
}

#[test]
fn flush_resets_the_stream_state() {
    let mut chunker = Chunker::new(ChunkerOptions::default());
    assert!(chunker.flush().is_none());
    let chunks = chunker.update(&[1, 2, 3]);
    assert!(chunks.is_empty());
    let first = chunker.flush().expect("pending bytes");
    assert_eq!(first.size, 3);
    // After a flush the same bytes hash and chunk identically.
    chunker.update(&[1, 2, 3]);
    let second = chunker.flush().expect("pending bytes");
    assert_eq!(second.size, 3);
    assert_eq!(first.digest, second.digest);
}


#[test]
fn empty_update_changes_nothing() {
    let mut chunker = Chunker::new(ChunkerOptions {
        window_size: 16,
        min_chunk: 0,
        avg_chunk: 1024 * 1024,
        max_chunk: 1024 * 1024,
        zip_boundary: false,
    });
    chunker.update(&[7, 8, 9]);
    let hash_before = chunker.hash;
    let chunks = chunker.update(&[]);
    assert!(chunks.is_empty());
    assert_eq!(chunker.hash, hash_before);
    let last = chunker.flush().expect("pending bytes");
    assert_eq!(last.size, 3);
}

#[test]
fn max_size_caps_every_chunk() {
    // Over an all-zero stream the register stays zero, so the mask
    // (all ones) never matches and only the hard cap cuts.
    let mut chunker = Chunker::new(ChunkerOptions {
        window_size: 8,
        min_chunk: 0,
        avg_chunk: 4096,
        max_chunk: 100,
        zip_boundary: false,
    });
    let chunks = chunker.update(&[0u8; 350]);
    let sizes: Vec<usize> = chunks.iter().map(|c| c.size).collect();
    assert_eq!(sizes, vec![100, 100, 100]);
    let last = chunker.flush().expect("pending bytes");
    assert_eq!(last.size, 50);
}

#[test]
fn zip_matcher_restarts_after_mismatch() {
    // The matcher falls back to the start after a mismatched byte, so a
    // signature occurrence overlapping a partial match goes undetected:
    // here the second 0x50 resets the matcher instead of starting a new
    // match, and the occurrence at offset 1 forces no boundary.
    let mut options = ChunkerOptions::default();
    options.zip_boundary = true;
    let mut chunker = Chunker::new(options);
    let chunks = chunker.update(&[0x50, 0x50, 0x4b, 0x03, 0x04]);
    assert!(chunks.is_empty());
    let last = chunker.flush().expect("pending bytes");
    assert_eq!(last.size, 5);
}

#[test]
fn stats_cover_the_whole_stream() {
    // The whole-stream accounting: size counts every byte fed since the
    // last finalize, and the digest is the stream hash of exactly those
    // bytes, independent of chunk boundaries or update slicing.
    let mut chunker = Chunker::new(ChunkerOptions::default());

    let mut chunks = Vec::new();
    for _i in 0..(256 * 1024) {
        chunks.append(&mut chunker.update(&[0x33, 0x31, 0x85]));
    }
    let (last, stats) = chunker.finalize_reset();
    if let Some(x) = last {
        chunks.push(x);
    }
    assert_eq!(chunks.len(), 24);
    assert_eq!(stats.size, 256 * 1024 * 3);

    let mut hasher = blake2::Blake2b512::new();
    for _i in 0..(256 * 1024) {
        hasher.update(&[0x33u8, 0x31, 0x85]);
    }
    assert_eq!(stats.digest.len(), 64);
    assert_eq!(stats.digest, hasher.finalize().to_vec());
}

#[test]
fn finalize_resets_the_stream_accounting() {
    let mut chunker = Chunker::new(ChunkerOptions::default());
    chunker.update(&[1, 2, 3, 4]);
    let (first_chunk, first) = chunker.finalize_reset();
    assert_eq!(first_chunk.expect("pending bytes").size, 4);
    assert_eq!(first.size, 4);

    // A second identical stream gives identical stats: the counters
    // restarted from zero.
    chunker.update(&[1, 2, 3, 4]);
    let (_, second) = chunker.finalize_reset();
    assert_eq!(second.size, 4);
    assert_eq!(first.digest, second.digest);

    let mut hasher = blake2::Blake2b512::new();
    hasher.update(&[1u8, 2, 3, 4]);
    assert_eq!(first.digest, hasher.finalize().to_vec());

    // An empty stream: no chunk, zero size, digest of no bytes.
    let (none_chunk, empty) = chunker.finalize_reset();
    assert!(none_chunk.is_none());
    assert_eq!(empty.size, 0);
    let empty_hasher = blake2::Blake2b512::new();
    assert_eq!(empty.digest, empty_hasher.finalize().to_vec());
}
