use chunk_delta::delta::Segment;
use chunk_delta::differ::{DiffError, Differ};

fn patch(old: &str, new: &str, segments: Vec<Segment>) -> String {
    let mut patched_string = String::from("");
    for segment in segments {
        patched_string += match segment {
            Segment::Old(range) => &old[range],
            Segment::New(range) => &new[range],
        };
    }
    patched_string
}

#[test]
fn test_differ_data() {
    let old_string = "What a a year in the blockchain sphere. It's also been quite a year for Equilibrium and I thought I'd recap everything that has happened in the company.";
    let new_string = "It's been a year in the blockchain sphere. It's also been quite a year for Equilibrium. I thought I'd recap everything that has happened in the company with a Year In Review post.";

    // avg chunk size 16
    let window_size: u32 = 8;
    let min_chunk_size: usize = 8;
    let max_chunk_size: usize = 32;
    let boundary_mask: u32 = (1 << 4) - 1; // avg chunk size is 2^4 = 16
    let segments = Differ::diff(
        old_string.as_bytes(),
        new_string.as_bytes(),
        Some(window_size),
        Some(min_chunk_size),
        Some(max_chunk_size),
        Some(boundary_mask),
    )
    .unwrap();
    let patched_string = patch(old_string, new_string, segments);
    assert_eq!(new_string, patched_string);

    // avg chunk size 8
    let window_size: u32 = 4;
    let min_chunk_size: usize = 4;
    let max_chunk_size: usize = 16;
    let boundary_mask: u32 = (1 << 3) - 1; // avg chunk size is 2^3 = 8
    let segments = Differ::diff(
        old_string.as_bytes(),
        new_string.as_bytes(),
        Some(window_size),
        Some(min_chunk_size),
        Some(max_chunk_size),
        Some(boundary_mask),
    )
    .unwrap();
    let patched_string = patch(old_string, new_string, segments);
    assert_eq!(new_string, patched_string);
}

#[test]
fn differ_reuses_old_chunks() {
    let old_string = "What a a year in the blockchain sphere. It's also been quite a year for Equilibrium and I thought I'd recap everything that has happened in the company.";
    let new_string = "It's been a year in the blockchain sphere. It's also been quite a year for Equilibrium. I thought I'd recap everything that has happened in the company with a Year In Review post.";
    let segments =
        Differ::diff(old_string.as_bytes(), new_string.as_bytes(), Some(8), Some(8), Some(32), Some(0x0F))
            .unwrap();
    assert!(segments.iter().any(|s| matches!(s, Segment::Old(_))));
    for pair in segments.windows(2) {
        assert!(!(matches!(pair[0], Segment::New(_)) && matches!(pair[1], Segment::New(_))));
    }
}

#[test]
fn differ_identical_streams() {
    let text = "It's also been quite a year for Equilibrium and I thought I'd recap everything.";
    let segments =
        Differ::diff(text.as_bytes(), text.as_bytes(), Some(8), Some(8), Some(32), Some(0x0F)).unwrap();
    assert_eq!(segments, vec![Segment::Old(0..text.len())]);
}

#[test]
fn differ_streaming_matches_one_shot() {
    let old_string = "standing still is a state of no motion, equilibrium is a state of no motion";
    let new_string = "eiger is an alpine peak; equilibrium is a state of no motion, that remains";
    let one_shot =
        Differ::diff(old_string.as_bytes(), new_string.as_bytes(), Some(4), Some(4), Some(16), Some(7))
            .unwrap();
    let mut differ = Differ::new(Some(4), Some(4), Some(16), Some(7)).unwrap();
    let (o1, o2) = old_string.as_bytes().split_at(10);
    let (n1, n2) = new_string.as_bytes().split_at(33);
    differ.process_new(n1);
    differ.process_old(o1);
    differ.process_old(o2);
    differ.process_new(n2);
    let streamed = differ.finalize();
    assert_eq!(streamed, one_shot);
    assert_eq!(patch(old_string, new_string, streamed), new_string);
}

#[test]
fn differ_empty_streams() {
    // each empty stream has one empty chunk, and the two share their digest
    let segments = Differ::diff(&[], &[], Some(4), Some(4), Some(16), Some(7)).unwrap();
    assert_eq!(segments, vec![Segment::Old(0..0)]);
    let segments = Differ::diff(b"abcdef", &[], Some(4), Some(4), Some(16), Some(7)).unwrap();
    assert_eq!(segments, vec![Segment::New(0..0)]);
    let segments = Differ::diff(&[], b"abcdef", Some(4), Some(4), Some(16), Some(7)).unwrap();
    assert_eq!(segments, vec![Segment::New(0..6)]);
}

#[test]
fn differ_invalid_config() {
    assert_eq!(Differ::new(Some(33), Some(64), Some(128), None).err(), Some(DiffError::InvalidConfig));
    assert_eq!(Differ::new(Some(0), Some(64), Some(128), None).err(), Some(DiffError::InvalidConfig));
    assert_eq!(Differ::new(Some(64), Some(32), Some(8192), None).err(), Some(DiffError::InvalidConfig));
    assert_eq!(Differ::new(Some(16), Some(64), Some(32), None).err(), Some(DiffError::InvalidConfig));
    assert!(Differ::new(Some(16), Some(16), Some(16), None).is_ok());
    assert!(Differ::new(None, None, None, None).is_ok());
    assert_eq!(
        Differ::diff(b"a", b"b", Some(3), Some(4), Some(8), None).err(),
        Some(DiffError::InvalidConfig)
    );
}

#[test]
fn differ_short_prefix_on_short_stream() {
    // a stream shorter than the smallest chunk is a single chunk, so a prefix changes its
    // digest and nothing is reused
    let segments = Differ::diff(b"abc", b"xabc", Some(4), Some(4), Some(16), Some(7)).unwrap();
    assert_eq!(segments, vec![Segment::New(0..4)]);
}

#[test]
fn differ_prefix_reuses_later_chunks() {
    let old_string = "It's also been quite a year for Equilibrium and I thought I'd recap everything that has happened in the company.";
    let new_string = format!("Hi. {}", old_string);
    let segments =
        Differ::diff(old_string.as_bytes(), new_string.as_bytes(), Some(8), Some(8), Some(32), Some(0x0F))
            .unwrap();
    assert!(matches!(segments[0], Segment::New(_)));
    assert!(matches!(segments.last().unwrap(), Segment::Old(r) if r.end == old_string.len()));
    assert_eq!(patch(old_string, &new_string, segments), new_string);
}
