use chunk_delta::differ::make_slicers;
use chunk_delta::digester::{Hasher, Md5Hasher, Sha1Hasher, Sha256Hasher};
use chunk_delta::moving_sum::MovingSumRollingHasher;
use chunk_delta::polynomial::PolynomialRollingHasher;
use chunk_delta::slicer::{Chunk, Slicer};
use sha2::{Digest, Sha256};

const TEXT: &str = "What a a year in the blockchain sphere. It's also been quite a year for Equilibrium and I thought I'd recap everything that has happened in the company.";

fn slice(bytes: &[u8], pieces: usize, min: usize, max: usize, mask: u32) -> Vec<Chunk> {
    let rolling_hasher = PolynomialRollingHasher::new(8, None, None);
    let hasher = Sha256Hasher::new(max);
    let mut slicer = Slicer::new(rolling_hasher, hasher, mask, min, max);
    let step = (bytes.len() + pieces - 1) / pieces.max(1);
    for piece in bytes.chunks(step.max(1)) {
        slicer.process(piece);
    }
    slicer.finalize()
}

#[test]
fn slicer_chunk_bounds_and_digests() {
    let bytes = TEXT.as_bytes();
    let chunks = slice(bytes, 1, 8, 32, 0x0F);
    assert_eq!(chunks.last().unwrap().end, bytes.len());
    let mut start = 0;
    for (i, chunk) in chunks.iter().enumerate() {
        let size = chunk.end - start;
        assert!(size <= 32);
        if i + 1 < chunks.len() {
            assert!(size >= 8);
        } else {
            assert!(size >= 1);
        }
        assert_eq!(chunk.hash, Sha256::digest(&bytes[start..chunk.end]).to_vec());
        start = chunk.end;
    }
}

#[test]
fn slicer_split_points_do_not_matter() {
    let bytes = TEXT.as_bytes();
    let whole = slice(bytes, 1, 8, 32, 0x0F);
    let split = slice(bytes, 7, 8, 32, 0x0F);
    assert_eq!(whole.len(), split.len());
    for (a, b) in whole.iter().zip(split.iter()) {
        assert_eq!(a.end, b.end);
        assert_eq!(a.hash, b.hash);
    }
}

#[test]
fn slicer_max_chunk_size_cuts() {
    // a mask that no hash clears leaves the largest chunk size to decide
    let bytes = [7u8; 40];
    let chunks = slice(&bytes, 1, 8, 16, u32::MAX);
    let ends: Vec<usize> = chunks.iter().map(|c| c.end).collect();
    assert_eq!(ends, vec![16, 32, 40]);
}

#[test]
fn slicer_boundary_byte_starts_next_chunk() {
    // with a zero mask every position is a boundary once the chunk holds the smallest size;
    // the byte at the boundary opens the next chunk
    let bytes = [1u8; 10];
    let chunks = slice(&bytes, 1, 8, 16, 0);
    let ends: Vec<usize> = chunks.iter().map(|c| c.end).collect();
    assert_eq!(ends, vec![8, 10]);
    assert_eq!(chunks[0].hash, Sha256::digest(&bytes[0..8]).to_vec());
}

#[test]
fn slicer_empty_stream() {
    let chunks = slice(&[], 1, 8, 16, 0x0F);
    assert_eq!(chunks.len(), 1);
    assert_eq!(chunks[0].end, 0);
    assert_eq!(chunks[0].hash, Sha256::digest(b"").to_vec());
}

#[test]
fn slicer_with_moving_sum_and_md5() {
    let rolling_hasher = MovingSumRollingHasher::new(4);
    let hasher = Md5Hasher::new(16);
    let mut slicer = Slicer::new(rolling_hasher, hasher, 0x7, 4, 16);
    slicer.process(TEXT.as_bytes());
    let chunks = slicer.finalize();
    assert_eq!(chunks.last().unwrap().end, TEXT.len());
    assert!(chunks.iter().all(|c| c.hash.len() == 16));
}

#[test]
fn digesters_hash_pending_bytes() {
    let mut sha256 = Sha256Hasher::new(8);
    for b in b"abc" {
        sha256.push(*b);
    }
    let digest = sha256.finalize();
    assert_eq!(
        digest,
        vec![
            0xba, 0x78, 0x16, 0xbf, 0x8f, 0x01, 0xcf, 0xea, 0x41, 0x41, 0x40, 0xde, 0x5d, 0xae,
            0x22, 0x23, 0xb0, 0x03, 0x61, 0xa3, 0x96, 0x17, 0x7a, 0x9c, 0xb4, 0x10, 0xff, 0x61,
            0xf2, 0x00, 0x15, 0xad
        ]
    );
    // the digester is empty again after finalize
    assert_eq!(sha256.finalize(), Sha256::digest(b"").to_vec());

    let mut sha1 = Sha1Hasher::new(8);
    for b in b"abc" {
        sha1.push(*b);
    }
    assert_eq!(
        sha1.finalize(),
        vec![
            0xa9, 0x99, 0x3e, 0x36, 0x47, 0x06, 0x81, 0x6a, 0xba, 0x3e, 0x25, 0x71, 0x78, 0x50,
            0xc2, 0x6c, 0x9c, 0xd0, 0xd8, 0x9d
        ]
    );

    let mut md5 = Md5Hasher::new(8);
    for b in b"abc" {
        md5.push(*b);
    }
    assert_eq!(
        md5.finalize(),
        vec![
            0x90, 0x01, 0x50, 0x98, 0x3c, 0xd2, 0x4f, 0xb0, 0xd6, 0x96, 0x3f, 0x7d, 0x28, 0xe1,
            0x7f, 0x72
        ]
    );
}

#[test]
fn slicer_add_chunk_cuts_where_it_stands() {
    let rolling_hasher = PolynomialRollingHasher::new(4, None, None);
    let hasher = Sha256Hasher::new(16);
    let mut slicer = Slicer::new(rolling_hasher, hasher, u32::MAX, 4, 16);
    slicer.process(b"abc");
    slicer.add_chunk();
    slicer.process(b"defg");
    let chunks = slicer.finalize();
    let ends: Vec<usize> = chunks.iter().map(|c| c.end).collect();
    assert_eq!(ends, vec![3, 7]);
    assert_eq!(chunks[0].hash, Sha256::digest(b"abc").to_vec());
    assert_eq!(chunks[1].hash, Sha256::digest(b"defg").to_vec());
}

#[test]
fn make_slicers_gives_two_equal_slicers() {
    let (mut old, mut new) = make_slicers(8, 8, 32, 0x0F);
    old.process(TEXT.as_bytes());
    new.process(TEXT.as_bytes());
    let a = old.finalize();
    let b = new.finalize();
    assert_eq!(a.len(), b.len());
    assert!(a.iter().zip(b.iter()).all(|(x, y)| x.end == y.end && x.hash == y.hash));
    assert_eq!(a.last().unwrap().end, TEXT.len());
}
