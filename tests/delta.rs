use chunk_delta::delta::{delta, Segment};
use chunk_delta::slicer::Chunk;

fn chunk(hash: &str, end: usize) -> Chunk {
    Chunk {
        hash: hash.to_string().into_bytes(),
        end,
    }
}

fn digest(hash: &str) -> Vec<u8> {
    hash.to_string().into_bytes()
}

#[test]
fn delta_test_delta_nothing_in_common() {
    let old_chunks: &[Chunk] = &[chunk("A", 4)];
    let new_chunks: &[Chunk] = &[chunk("V", 4)];
    let lcs: &[Vec<u8>] = &[];
    let segments = delta(old_chunks, new_chunks, lcs);
    assert_eq!(segments, vec![Segment::New(0..4)]);
}

#[test]
fn delta_test_delta_empty_new() {
    let old_chunks: &[Chunk] = &[chunk("A", 4)];
    let new_chunks: &[Chunk] = &[];
    let lcs: &[Vec<u8>] = &[];
    let segments = delta(old_chunks, new_chunks, lcs);
    assert_eq!(segments, vec![]);
}

#[test]
fn delta_test_delta_empty_old() {
    let old_chunks: &[Chunk] = &[];

    // single
    let new_chunks: &[Chunk] = &[chunk("V", 4)];
    let lcs: &[Vec<u8>] = &[];
    let segments = delta(old_chunks, new_chunks, lcs);
    assert_eq!(segments, vec![Segment::New(0..4)]);

    // many
    let new_chunks: &[Chunk] = &[chunk("V", 4), chunk("W", 8)];
    let lcs: &[Vec<u8>] = &[];
    let segments = delta(old_chunks, new_chunks, lcs);
    assert_eq!(segments, vec![Segment::New(0..8)]);
}

#[test]
fn delta_test_delta_empty_both() {
    let old_chunks: &[Chunk] = &[];
    let new_chunks: &[Chunk] = &[];
    let lcs: &[Vec<u8>] = &[];
    let segments = delta(old_chunks, new_chunks, lcs);
    assert_eq!(segments, vec![]);
}

#[test]
fn delta_test_delta_prepend() {
    let old_chunks: &[Chunk] = &[chunk("A", 4)];

    // prepend one
    let new_chunks: &[Chunk] = &[chunk("V", 4), chunk("A", 8)];
    let lcs: &[Vec<u8>] = &[digest("A")];
    let segments = delta(old_chunks, new_chunks, lcs);
    assert_eq!(segments, vec![Segment::New(0..4), Segment::Old(0..4)]);

    // prepend multiple
    let new_chunks: &[Chunk] = &[chunk("V", 4), chunk("W", 8), chunk("A", 12)];
    let lcs: &[Vec<u8>] = &[digest("A")];
    let segments = delta(old_chunks, new_chunks, lcs);
    assert_eq!(segments, vec![Segment::New(0..8), Segment::Old(0..4)]);
}

#[test]
fn delta_test_delta_append() {
    let old_chunks: &[Chunk] = &[chunk("A", 4)];

    // append one
    let new_chunks: &[Chunk] = &[chunk("A", 4), chunk("V", 8)];
    let lcs: &[Vec<u8>] = &[digest("A")];
    let segments = delta(old_chunks, new_chunks, lcs);
    assert_eq!(segments, vec![Segment::Old(0..4), Segment::New(4..8)]);

    // append multiple
    let new_chunks: &[Chunk] = &[chunk("A", 4), chunk("V", 8), chunk("X", 12)];
    let lcs: &[Vec<u8>] = &[digest("A")];
    let segments = delta(old_chunks, new_chunks, lcs);
    assert_eq!(segments, vec![Segment::Old(0..4), Segment::New(4..12)]);
}

#[test]
fn delta_test_delta_insert() {
    let old_chunks: &[Chunk] = &[chunk("A", 4), chunk("B", 8)];

    // insert one
    let new_chunks: &[Chunk] = &[chunk("A", 4), chunk("V", 8), chunk("B", 12)];
    let lcs: &[Vec<u8>] = &[digest("A"), digest("B")];
    let segments = delta(old_chunks, new_chunks, lcs);
    assert_eq!(
        segments,
        vec![Segment::Old(0..4), Segment::New(4..8), Segment::Old(4..8)]
    );

    // insert multiple
    let new_chunks: &[Chunk] = &[
        chunk("A", 4),
        chunk("V", 8),
        chunk("W", 12),
        chunk("X", 16),
        chunk("B", 20),
    ];
    let lcs: &[Vec<u8>] = &[digest("A"), digest("B")];
    let segments = delta(old_chunks, new_chunks, lcs);
    assert_eq!(
        segments,
        vec![Segment::Old(0..4), Segment::New(4..16), Segment::Old(4..8)]
    );
}

#[test]
fn delta_old_chunks_skipped_and_merged() {
    // old chunks missing from the new stream are skipped; consecutive shared chunks merge
    let old_chunks: &[Chunk] = &[chunk("A", 4), chunk("X", 6), chunk("B", 9), chunk("C", 15)];
    let new_chunks: &[Chunk] = &[chunk("B", 3), chunk("C", 9), chunk("N", 10)];
    let lcs: &[Vec<u8>] = &[digest("B"), digest("C")];
    let segments = delta(old_chunks, new_chunks, lcs);
    assert_eq!(segments, vec![Segment::Old(6..15), Segment::New(9..10)]);
}

#[test]
fn delta_old_runs_not_adjacent_in_old() {
    // shared chunks that are apart in the old stream give two old segments
    let old_chunks: &[Chunk] = &[chunk("A", 4), chunk("X", 8), chunk("B", 12)];
    let new_chunks: &[Chunk] = &[chunk("A", 4), chunk("B", 8)];
    let lcs: &[Vec<u8>] = &[digest("A"), digest("B")];
    let segments = delta(old_chunks, new_chunks, lcs);
    assert_eq!(segments, vec![Segment::Old(0..4), Segment::Old(8..12)]);
}

#[test]
fn test_delta_nothing_in_common() {
    let old_chunks: &[Chunk] = &[chunk("A", 4)];
    let new_chunks: &[Chunk] = &[chunk("V", 4)];
    let lcs: &[Vec<u8>] = &[];
    let segments = delta(old_chunks, new_chunks, lcs);
    assert_eq!(segments, vec![Segment::New(0..4)]);
}

#[test]
fn test_delta_empty_new() {
    let old_chunks: &[Chunk] = &[chunk("A", 4)];
    let new_chunks: &[Chunk] = &[];
    let lcs: &[Vec<u8>] = &[];
    let segments = delta(old_chunks, new_chunks, lcs);
    assert_eq!(segments, vec![]);
}

#[test]
fn test_delta_empty_old() {
    let old_chunks: &[Chunk] = &[];

    // single
    let new_chunks: &[Chunk] = &[chunk("V", 4)];
    let lcs: &[Vec<u8>] = &[];
    let segments = delta(old_chunks, new_chunks, lcs);
    assert_eq!(segments, vec![Segment::New(0..4)]);

    // many
    let new_chunks: &[Chunk] = &[chunk("V", 4), chunk("W", 8)];
    let lcs: &[Vec<u8>] = &[];
    let segments = delta(old_chunks, new_chunks, lcs);
    assert_eq!(segments, vec![Segment::New(0..8)]);
}

#[test]
fn test_delta_empty_both() {
    let old_chunks: &[Chunk] = &[];
    let new_chunks: &[Chunk] = &[];
    let lcs: &[Vec<u8>] = &[];
    let segments = delta(old_chunks, new_chunks, lcs);
    assert_eq!(segments, vec![]);
}

#[test]
fn test_delta_prepend() {
    let old_chunks: &[Chunk] = &[chunk("A", 4)];

    // prepend one
    let new_chunks: &[Chunk] = &[chunk("V", 4), chunk("A", 8)];
    let lcs: &[Vec<u8>] = &[digest("A")];
    let segments = delta(old_chunks, new_chunks, lcs);
    assert_eq!(segments, vec![Segment::New(0..4), Segment::Old(0..4)]);

    // prepend multiple
    let new_chunks: &[Chunk] = &[chunk("V", 4), chunk("W", 8), chunk("A", 12)];
    let lcs: &[Vec<u8>] = &[digest("A")];
    let segments = delta(old_chunks, new_chunks, lcs);
    assert_eq!(segments, vec![Segment::New(0..8), Segment::Old(0..4)]);
}

#[test]
fn test_delta_append() {
    let old_chunks: &[Chunk] = &[chunk("A", 4)];

    // append one
    let new_chunks: &[Chunk] = &[chunk("A", 4), chunk("V", 8)];
    let lcs: &[Vec<u8>] = &[digest("A")];
    let segments = delta(old_chunks, new_chunks, lcs);
    assert_eq!(segments, vec![Segment::Old(0..4), Segment::New(4..8)]);

    // append multiple
    let new_chunks: &[Chunk] = &[chunk("A", 4), chunk("V", 8), chunk("X", 12)];
    let lcs: &[Vec<u8>] = &[digest("A")];
    let segments = delta(old_chunks, new_chunks, lcs);
    assert_eq!(segments, vec![Segment::Old(0..4), Segment::New(4..12)]);
}

#[test]
fn test_delta_insert() {
    let old_chunks: &[Chunk] = &[chunk("A", 4), chunk("B", 8)];

    // insert one
    let new_chunks: &[Chunk] = &[chunk("A", 4), chunk("V", 8), chunk("B", 12)];
    let lcs: &[Vec<u8>] = &[digest("A"), digest("B")];
    let segments = delta(old_chunks, new_chunks, lcs);
    assert_eq!(
        segments,
        vec![Segment::Old(0..4), Segment::New(4..8), Segment::Old(4..8)]
    );

    // insert multiple
    let new_chunks: &[Chunk] = &[
        chunk("A", 4),
        chunk("V", 8),
        chunk("W", 12),
        chunk("X", 16),
        chunk("B", 20),
    ];
    let lcs: &[Vec<u8>] = &[digest("A"), digest("B")];
    let segments = delta(old_chunks, new_chunks, lcs);
    assert_eq!(
        segments,
        vec![Segment::Old(0..4), Segment::New(4..16), Segment::Old(4..8)]
    );
}

#[test]
fn delta_is_repeatable() {
    let old_chunks: &[Chunk] = &[chunk("A", 4), chunk("B", 8)];
    let new_chunks: &[Chunk] = &[chunk("A", 4), chunk("V", 8), chunk("B", 12)];
    let lcs: &[Vec<u8>] = &[digest("A"), digest("B")];
    assert_eq!(delta(old_chunks, new_chunks, lcs), delta(old_chunks, new_chunks, lcs));
}

#[test]
fn delta_matches_the_first_new_chunk() {
    // the shared digest is taken at its first place in the new list
    let old_chunks: &[Chunk] = &[chunk("A", 4)];
    let new_chunks: &[Chunk] = &[chunk("A", 4), chunk("A", 8)];
    let lcs: &[Vec<u8>] = &[digest("A")];
    assert_eq!(delta(old_chunks, new_chunks, lcs), vec![Segment::Old(0..4), Segment::New(4..8)]);
}
