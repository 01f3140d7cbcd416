use chunk_delta::delta::Segment;
use chunk_delta::differ::Differ;
use chunk_delta::patcher::patch;

#[test]
fn patcher_concatenates_ranges() {
    let old = b"abcdefgh";
    let new = b"XYabcdZ";
    let segments = vec![Segment::New(0..2), Segment::Old(0..4), Segment::New(6..7)];
    let (bytes, old_used, new_used) = patch(old, new, &segments).unwrap();
    assert_eq!(bytes, b"XYabcdZ".to_vec());
    assert_eq!(old_used, 4);
    assert_eq!(new_used, 3);
}

#[test]
fn patcher_refuses_ranges_outside_streams() {
    let old = b"abcd";
    let new = b"xy";
    assert!(patch(old, new, &[Segment::Old(2..5)]).is_none());
    assert!(patch(old, new, &[Segment::New(0..3)]).is_none());
    #[allow(clippy::reversed_empty_ranges)]
    let reversed = Segment::New(2..1);
    assert!(patch(old, new, &[reversed]).is_none());
    assert_eq!(patch(old, new, &[]), Some((Vec::new(), 0, 0)));
}

#[test]
fn patcher_round_trip_of_diff() {
    let old_string = "What a a year in the blockchain sphere. It's also been quite a year for Equilibrium and I thought I'd recap everything that has happened in the company.";
    let new_string = "It's been a year in the blockchain sphere. It's also been quite a year for Equilibrium. I thought I'd recap everything that has happened in the company with a Year In Review post.";
    for (w, min, max, mask) in [(8u32, 8usize, 32usize, 0x0Fu32), (4, 4, 16, 0x07), (1, 1, 1, 0), (16, 64, 64, 0xFF)] {
        let segments = Differ::diff(
            old_string.as_bytes(),
            new_string.as_bytes(),
            Some(w),
            Some(min),
            Some(max),
            Some(mask),
        )
        .unwrap();
        let (bytes, old_used, new_used) =
            patch(old_string.as_bytes(), new_string.as_bytes(), &segments).unwrap();
        assert_eq!(bytes, new_string.as_bytes().to_vec());
        assert_eq!(old_used + new_used, new_string.len());
    }
}
