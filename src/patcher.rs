use crate::delta::{apply_segments, Segment};
use vstd::prelude::*;

verus! {

/// Every `Old` range lies within a stream of `old_len` bytes and every `New` range within
/// one of `new_len` bytes.
pub open spec fn ranges_ok(old_len: nat, new_len: nat, segs: Seq<Segment>) -> bool {
    forall|k: int|
        0 <= k < segs.len() ==> match #[trigger] segs[k] {
            Segment::Old(r) => r.start <= r.end <= old_len,
            Segment::New(r) => r.start <= r.end <= new_len,
        }
}

/// How many bytes the first `k` segments read from the old stream (`from_old`) or from the
/// new one.
pub open spec fn bytes_used(segs: Seq<Segment>, k: int, from_old: bool) -> int
    decreases k,
{
    if k <= 0 {
        0
    } else {
        bytes_used(segs, k - 1, from_old) + match segs[k - 1] {
            Segment::Old(r) => if from_old {
                r.end - r.start
            } else {
                0
            },
            Segment::New(r) => if from_old {
                0
            } else {
                r.end - r.start
            },
        }
    }
}

/// Rebuilds a stream from a delta: the bytes of the segments, read from `old` or `new`, in
/// order, with how many came from each. `None` where a range lies outside its stream or
/// the result would not fit in memory addresses.
pub fn patch(old: &[u8], new: &[u8], segments: &[Segment]) -> (r: Option<(Vec<u8>, usize, usize)>)
    ensures
        r is Some <==> ranges_ok(old@.len(), new@.len(), segments@) && bytes_used(
            segments@,
            segments@.len() as int,
            true,
        ) + bytes_used(segments@, segments@.len() as int, false) <= usize::MAX,
        r matches Some((bytes, old_used, new_used)) ==> {
            &&& bytes@ == apply_segments(old@, new@, segments@)
            &&& old_used == bytes_used(segments@, segments@.len() as int, true)
            &&& new_used == bytes_used(segments@, segments@.len() as int, false)
        },
{
    let mut patched: Vec<u8> = Vec::new();
    let mut old_bytes_used: usize = 0;
    let mut new_bytes_used: usize = 0;
    let mut k: usize = 0;
    while k < segments.len()
        invariant
            k <= segments@.len(),
            ranges_ok(old@.len(), new@.len(), segments@.subrange(0, k as int)),
            old_bytes_used == bytes_used(segments@, k as int, true),
            new_bytes_used == bytes_used(segments@, k as int, false),
            old_bytes_used + new_bytes_used <= usize::MAX,
            patched@ == apply_segments(old@, new@, segments@.subrange(0, k as int)),
        decreases segments@.len() - k,
    {
        let (source, start, end, from_old) = match &segments[k] {
            Segment::Old(range) => (old, range.start, range.end, true),
            Segment::New(range) => (new, range.start, range.end, false),
        };
        if start > end || end > source.len() || end - start > usize::MAX - old_bytes_used - new_bytes_used {
            proof {
                if ranges_ok(old@.len(), new@.len(), segments@) {
                    assert(match segments@[k as int] {
                        Segment::Old(r) => r.start <= r.end <= old@.len(),
                        Segment::New(r) => r.start <= r.end <= new@.len(),
                    });
                    lemma_bytes_used_step(segments@, old@.len(), new@.len(), k + 1, segments@.len() as int);
                    assert(bytes_used(segments@, k + 1, true) + bytes_used(segments@, k + 1, false)
                        == old_bytes_used + new_bytes_used + (end - start));
                }
            }
            return None;
        }
        let ghost before = patched@;
        let mut i: usize = start;
        while i < end
            invariant
                start <= i <= end <= source@.len(),
                patched@ == before + source@.subrange(start as int, i as int),
            decreases end - i,
        {
            patched.push(source[i]);
            proof {
                assert(source@.subrange(start as int, i + 1) =~= source@.subrange(start as int, i as int).push(
                    source@[i as int],
                ));
            }
            i = i + 1;
        }
        if from_old {
            old_bytes_used = old_bytes_used + (end - start);
        } else {
            new_bytes_used = new_bytes_used + (end - start);
        }
        proof {
            assert(segments@.subrange(0, k + 1).drop_last() =~= segments@.subrange(0, k as int));
            assert(segments@.subrange(0, k + 1).last() == segments@[k as int]);
            assert forall|x: int| 0 <= x < k + 1 implies match #[trigger] segments@.subrange(0, k + 1)[x] {
                Segment::Old(r) => r.start <= r.end <= old@.len(),
                Segment::New(r) => r.start <= r.end <= new@.len(),
            } by {
                if x < k {
                    assert(segments@.subrange(0, k + 1)[x] == segments@.subrange(0, k as int)[x]);
                }
            }
        }
        k = k + 1;
    }
    proof {
        assert(segments@.subrange(0, segments@.len() as int) =~= segments@);
    }
    Some((patched, old_bytes_used, new_bytes_used))
}

/// Over ranges that fit their streams, the counts only grow.
proof fn lemma_bytes_used_step(segs: Seq<Segment>, old_len: nat, new_len: nat, k: int, m: int)
    requires
        ranges_ok(old_len, new_len, segs),
        0 <= k <= m <= segs.len(),
    ensures
        bytes_used(segs, k, true) <= bytes_used(segs, m, true),
        bytes_used(segs, k, false) <= bytes_used(segs, m, false),
    decreases m - k,
{
    if k < m {
        lemma_bytes_used_step(segs, old_len, new_len, k, m - 1);
        assert(match segs[m - 1] {
            Segment::Old(r) => r.start <= r.end <= old_len,
            Segment::New(r) => r.start <= r.end <= new_len,
        });
    }
}

/// Over ranges that fit their streams, the segments describe as many bytes as they read.
pub proof fn lemma_apply_len(old: Seq<u8>, new: Seq<u8>, segs: Seq<Segment>, k: int)
    requires
        ranges_ok(old.len(), new.len(), segs),
        0 <= k <= segs.len(),
    ensures
        apply_segments(old, new, segs.subrange(0, k)).len() == bytes_used(segs, k, true) + bytes_used(
            segs,
            k,
            false,
        ),
    decreases k,
{
    if k > 0 {
        lemma_apply_len(old, new, segs, k - 1);
        assert(segs.subrange(0, k).drop_last() =~= segs.subrange(0, k - 1));
        assert(match segs[k - 1] {
            Segment::Old(r) => r.start <= r.end <= old.len(),
            Segment::New(r) => r.start <= r.end <= new.len(),
        });
    }
}

} // verus!
