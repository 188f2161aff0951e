use rsig::digest::Digest;
use rsig::error::DeltaError;
use rsig::signature::{Chunk, Signature};

fn gen_data(n: usize, seed: u64) -> Vec<u8> {
    let mut x = seed;
    let mut v = Vec::with_capacity(n);
    for _ in 0..n {
        x = x.wrapping_mul(6364136223846793005).wrapping_add(1442695040888963407);
        v.push((x >> 33) as u8);
    }
    v
}

fn d(n: u64) -> Digest {
    Digest { w0: n, w1: 0, w2: 0, w3: 0 }
}

#[test]
fn generate_covers_content() {
    let data = gen_data(200_000, 7);
    let sig = Signature::generate(&data, 4096, 16384, 65536).unwrap();
    assert_eq!(sig.length(), data.len());
    let chunks = sig.chunks();
    assert!(chunks.len() > 1);
    let mut expected_offset: u64 = 0;
    for c in chunks.iter() {
        assert_eq!(c.offset, expected_offset);
        assert!(c.length > 0);
        assert!(c.length <= 65536);
        expected_offset += c.length as u64;
    }
    assert_eq!(expected_offset, data.len() as u64);
}

#[test]
fn generate_twice_is_identical() {
    let data = gen_data(150_000, 42);
    let a = Signature::generate(&data, 4096, 16384, 65536).unwrap();
    let b = Signature::generate(&data, 4096, 16384, 65536).unwrap();
    assert_eq!(a.strong_hash(), b.strong_hash());
    assert_eq!(a.length(), b.length());
    assert_eq!(a.chunks().len(), b.chunks().len());
    for (x, y) in a.chunks().iter().zip(b.chunks().iter()) {
        assert_eq!(x, y);
    }
    assert!(a == b);
}

#[test]
fn generate_empty_content() {
    let data: Vec<u8> = Vec::new();
    let sig = Signature::generate(&data, 4096, 16384, 65536).unwrap();
    assert_eq!(sig.length(), 0);
    assert_eq!(sig.chunks().len(), 0);
}

#[test]
fn generate_rejects_bad_params() {
    let data = gen_data(1000, 1);
    // Minimum size below the supported floor.
    assert_eq!(
        Signature::generate(&data, 2, 16384, 65536).err(),
        Some(DeltaError::BadChunkerParams)
    );
    // Unordered sizes.
    assert_eq!(
        Signature::generate(&data, 65536, 16384, 4096).err(),
        Some(DeltaError::BadChunkerParams)
    );
    // Odd average.
    assert_eq!(
        Signature::generate(&data, 4096, 16385, 65536).err(),
        Some(DeltaError::BadChunkerParams)
    );
}

#[test]
fn signature_equality_is_hash_equality() {
    let a = Signature::new(d(1), 100, vec![Chunk { length: 100, offset: 0, strong_hash: d(9) }])
        .unwrap();
    let b = Signature::new(d(1), 50, vec![Chunk { length: 50, offset: 0, strong_hash: d(8) }])
        .unwrap();
    // Same whole-file hash: equal, even though the chunk lists differ.
    assert!(a == b);
}

#[test]
fn signature_new_validates_chunks() {
    // Gap between chunks.
    let r = Signature::new(
        d(1),
        200,
        vec![
            Chunk { length: 100, offset: 0, strong_hash: d(2) },
            Chunk { length: 100, offset: 150, strong_hash: d(3) },
        ],
    );
    assert_eq!(r.err(), Some(DeltaError::BadChunkList));
    // First chunk not at zero.
    let r = Signature::new(d(1), 100, vec![Chunk { length: 100, offset: 10, strong_hash: d(2) }]);
    assert_eq!(r.err(), Some(DeltaError::BadChunkList));
    // Empty chunk.
    let r = Signature::new(d(1), 0, vec![Chunk { length: 0, offset: 0, strong_hash: d(2) }]);
    assert_eq!(r.err(), Some(DeltaError::BadChunkList));
    // Length that does not cover the chunks.
    let r = Signature::new(d(1), 99, vec![Chunk { length: 100, offset: 0, strong_hash: d(2) }]);
    assert_eq!(r.err(), Some(DeltaError::BadChunkList));
    // A well-formed list passes.
    let sig = Signature::new(
        d(1),
        300,
        vec![
            Chunk { length: 100, offset: 0, strong_hash: d(2) },
            Chunk { length: 200, offset: 100, strong_hash: d(3) },
        ],
    )
    .unwrap();
    assert_eq!(sig.length(), 300);
}

#[test]
fn find_chunk_first_occurrence_wins() {
    let sig = Signature::new(
        d(1),
        300,
        vec![
            Chunk { length: 100, offset: 0, strong_hash: d(7) },
            Chunk { length: 100, offset: 100, strong_hash: d(7) },
            Chunk { length: 100, offset: 200, strong_hash: d(8) },
        ],
    )
    .unwrap();
    let c = sig.find_chunk(&d(7)).unwrap();
    assert_eq!(c.offset, 0);
    let c = sig.find_chunk(&d(8)).unwrap();
    assert_eq!(c.offset, 200);
    assert!(sig.find_chunk(&d(9)).is_none());
}
