use crate::slicer::{chunk_start, ends_wf, Chunk};
use std::ops::Range;
use vstd::prelude::*;

verus! {

/// A byte range of the old stream (`Old`) or of the new one (`New`). Read in order, the
/// ranges of a delta rebuild the new stream.
#[derive(Debug, PartialEq, Eq)]
pub enum Segment {
    Old(Range<usize>),
    New(Range<usize>),
}

/// `a` is a subsequence of `b`: it can be had from `b` by deleting elements.
pub open spec fn is_subseq<A>(a: Seq<A>, b: Seq<A>) -> bool
    decreases b.len(),
{
    if a.len() == 0 {
        true
    } else if b.len() == 0 {
        false
    } else if a[0] == b[0] {
        is_subseq(a.drop_first(), b.drop_first())
    } else {
        is_subseq(a, b.drop_first())
    }
}

/// The digests of a chunk list, in order.
pub open spec fn digests(chunks: Seq<Chunk>) -> Seq<Seq<u8>> {
    chunks.map_values(|c: Chunk| c.hash@)
}

/// The views of a list of byte vectors.
pub open spec fn byte_seqs(v: Seq<Vec<u8>>) -> Seq<Seq<u8>> {
    v.map_values(|x: Vec<u8>| x@)
}

/// The end offsets of a chunk list strictly increase.
pub open spec fn ends_increasing(chunks: Seq<Chunk>) -> bool {
    forall|i: int, j: int| 0 <= i < j < chunks.len() ==> chunks[i].end < chunks[j].end
}

/// The end offsets of a chunk list, in order.
pub open spec fn ends_of(chunks: Seq<Chunk>) -> Seq<nat> {
    chunks.map_values(|c: Chunk| c.end as nat)
}

/// Segment `seg` stands for the new chunks `[lo, hi)` (end offsets `ne`, digests `nd`): as
/// a `New` range, their bytes; as an `Old` range, the bytes of the old chunks
/// `[c, c + hi - lo)` (end offsets `oe`, digests `od`), whose digests equal theirs one by one.
pub open spec fn segment_covers(
    seg: Segment,
    oe: Seq<nat>,
    od: Seq<Seq<u8>>,
    ne: Seq<nat>,
    nd: Seq<Seq<u8>>,
    lo: int,
    hi: int,
    c: int,
) -> bool {
    &&& 0 <= lo < hi <= ne.len()
    &&& match seg {
        Segment::New(r) => r.start == chunk_start(ne, lo) && r.end == ne[hi - 1],
        Segment::Old(r) => {
            &&& 0 <= c
            &&& c + (hi - lo) <= oe.len()
            &&& r.start == chunk_start(oe, c)
            &&& r.end == oe[c + (hi - lo) - 1]
            &&& forall|t: int| 0 <= t < hi - lo ==> #[trigger] od[c + t] == nd[lo + t]
        },
    }
}

/// `segs` rebuilds the new chunk list from the old one: `b` cuts the new list into
/// consecutive runs, segment `k` standing for the run `[b[k], b[k + 1])`; `c[k]` is where
/// an `Old` run starts in the old list. `Old` runs move forward through the old list, two
/// adjacent `Old` segments leave a gap in the old list between them (else they would be
/// one), and no two `New` segments are adjacent.
pub open spec fn delta_plan(
    segs: Seq<Segment>,
    oe: Seq<nat>,
    od: Seq<Seq<u8>>,
    ne: Seq<nat>,
    nd: Seq<Seq<u8>>,
    b: Seq<int>,
    c: Seq<int>,
) -> bool {
    &&& oe.len() == od.len()
    &&& ne.len() == nd.len()
    &&& b.len() == segs.len() + 1
    &&& c.len() == segs.len()
    &&& b[0] == 0
    &&& b.last() == ne.len()
    &&& forall|k: int|
        0 <= k < segs.len() ==> #[trigger] segment_covers(segs[k], oe, od, ne, nd, b[k], b[k + 1], c[k])
    &&& forall|k: int, l: int|
        0 <= k < l < segs.len() && segs[k] is Old && segs[l] is Old ==> c[k] + (b[k + 1] - b[k])
            <= c[l]
    &&& forall|k: int|
        0 <= k < segs.len() - 1 && #[trigger] segs[k] is Old && segs[k + 1] is Old ==> c[k] + (b[k
            + 1] - b[k]) < c[k + 1]
    &&& forall|k: int| 0 <= k < segs.len() - 1 ==> !(#[trigger] segs[k] is New && segs[k + 1] is New)
}

/// How many new chunks the first `k` segments of a plan take from the old stream.
pub open spec fn reused(segs: Seq<Segment>, b: Seq<int>, k: int) -> int
    decreases k,
{
    if k <= 0 {
        0
    } else {
        reused(segs, b, k - 1) + if segs[k - 1] is Old {
            b[k] - b[k - 1]
        } else {
            0
        }
    }
}

/// The digest comparison.
fn same_digest(a: &Vec<u8>, b: &Vec<u8>) -> (r: bool)
    ensures
        r == (a@ == b@),
{
    let r = a == b;
    proof {
        if r {
            assert(a@ =~= b@);
        }
    }
    r
}

proof fn lemma_subseq_skip<A>(a: Seq<A>, b: Seq<A>)
    requires
        is_subseq(a, b),
        a.len() > 0,
    ensures
        b.len() > 0,
        a[0] != b[0] ==> is_subseq(a, b.drop_first()),
        a[0] == b[0] ==> is_subseq(a.drop_first(), b.drop_first()),
{
}

/// The delta of `chunks_new` against `chunks_old` given a common subsequence `lcs` of
/// their digests: the digests of `lcs` are matched in order, each to the first chunk after
/// the previous match in either list, those new chunks are cited from the old stream, the
/// others are sent, and runs of consecutive chunks form one segment.
#[verifier::spinoff_prover]
#[verifier::rlimit(100)]
pub fn delta(chunks_old: &[Chunk], chunks_new: &[Chunk], lcs: &[Vec<u8>]) -> (r: Vec<Segment>)
    requires
        ends_increasing(chunks_old@),
        ends_increasing(chunks_new@),
        is_subseq(byte_seqs(lcs@), digests(chunks_old@)),
        is_subseq(byte_seqs(lcs@), digests(chunks_new@)),
    ensures
        exists|b: Seq<int>, c: Seq<int>|
            #[trigger] delta_plan(
                r@,
                ends_of(chunks_old@),
                digests(chunks_old@),
                ends_of(chunks_new@),
                digests(chunks_new@),
                b,
                c,
            ) && reused(r@, b, r@.len() as int) == lcs@.len() && reused_digests(
                r@,
                b,
                digests(chunks_new@),
                r@.len() as int,
            ) == byte_seqs(lcs@) && greedy(
                r@,
                digests(chunks_old@),
                digests(chunks_new@),
                byte_seqs(lcs@),
                b,
                c,
            ),
{
    let ghost os = chunks_old@;
    let ghost ns = chunks_new@;
    let ghost oe = ends_of(os);
    let ghost od = digests(os);
    let ghost ne = ends_of(ns);
    let ghost nd = digests(ns);
    let ghost l = byte_seqs(lcs@);
    if lcs.len() == 0 {
        let mut segments: Vec<Segment> = Vec::new();
        if chunks_new.len() > 0 {
            segments.push(Segment::New(0..chunks_new[chunks_new.len() - 1].end));
            proof {
                let b = seq![0int, ns.len() as int];
                let c = seq![0int];
                assert(segment_covers(segments@[0], oe, od, ne, nd, b[0], b[1], c[0]));
                assert(segments@[0] is New);
                assert(reused(segments@, b, 0) == 0);
                assert(reused(segments@, b, 1) == 0);
                assert(reused_digests(segments@, b, nd, 0) =~= Seq::<Seq<u8>>::empty());
                assert(reused_digests(segments@, b, nd, 1) =~= Seq::<Seq<u8>>::empty());
                assert(l =~= Seq::<Seq<u8>>::empty());
                assert(greedy(segments@, od, nd, l, b, c)) by {
                    reveal(greedy);
                }
                assert(delta_plan(segments@, oe, od, ne, nd, b, c));
            }
        } else {
            proof {
                let b = seq![0int];
                let c = Seq::<int>::empty();
                assert(reused_digests(segments@, b, nd, 0) =~= Seq::<Seq<u8>>::empty());
                assert(l =~= Seq::<Seq<u8>>::empty());
                assert(greedy(segments@, od, nd, l, b, c)) by {
                    reveal(greedy);
                }
                assert(delta_plan(segments@, oe, od, ne, nd, b, c));
            }
        }
        return segments;
    }
    let mut segments: Vec<Segment> = Vec::with_capacity(chunks_new.len());
    let mut new_pos: usize = 0;
    let mut old_pos: usize = 0;
    let mut lcs_pos: usize = 0;
    let lcs_len = lcs.len();
    let ghost mut b: Seq<int> = seq![0int];
    let ghost mut c: Seq<int> = Seq::empty();
    proof {
        assert(greedy(segments@, od, nd, l, b, c)) by {
            reveal(greedy);
        }
        assert(l.subrange(0, lcs_len as int) =~= l);
        assert(digests(ns).subrange(0, ns.len() as int) =~= digests(ns));
        assert(digests(os).subrange(0, os.len() as int) =~= digests(os));
    }
    while lcs_pos < lcs_len
        invariant
            os == chunks_old@,
            ns == chunks_new@,
            oe == ends_of(os),
            od == digests(os),
            ne == ends_of(ns),
            nd == digests(ns),
            l == byte_seqs(lcs@),
            lcs_len == lcs@.len(),
            ends_increasing(os),
            ends_increasing(ns),
            lcs_pos <= lcs_len,
            new_pos <= ns.len(),
            old_pos <= os.len(),
            lcs_pos < lcs_len ==> is_subseq(
                l.subrange(lcs_pos as int, lcs_len as int),
                digests(ns).subrange(new_pos as int, ns.len() as int),
            ),
            lcs_pos < lcs_len ==> is_subseq(
                l.subrange(lcs_pos as int, lcs_len as int),
                digests(os).subrange(old_pos as int, os.len() as int),
            ),
            b.len() == segments@.len() + 1,
            c.len() == segments@.len(),
            b[0] == 0,
            b.last() == new_pos,
            forall|k: int|
                0 <= k < segments@.len() ==> #[trigger] segment_covers(
                    segments@[k],
                    oe,
                    od,
                    ne,
                    nd,
                    b[k],
                    b[k + 1],
                    c[k],
                ),
            forall|k: int, m: int|
                0 <= k < m < segments@.len() && segments@[k] is Old && segments@[m] is Old ==> c[k]
                    + (b[k + 1] - b[k]) <= c[m],
            forall|k: int|
                0 <= k < segments@.len() && #[trigger] segments@[k] is Old ==> c[k] + (b[k + 1]
                    - b[k]) <= old_pos,
            forall|k: int|
                0 <= k < segments@.len() - 1 ==> !(#[trigger] segments@[k] is New && segments@[k
                    + 1] is New),
            segments@.len() > 0 ==> segments@.last() is Old,
            segments@.len() > 0 ==> c.last() + (b.last() - b[b.len() - 2]) == old_pos,
            segments@.len() > 0 && lcs_pos < lcs_len ==> !(ns[new_pos as int].hash@ == l[lcs_pos as int]
                && os[old_pos as int].hash@ == l[lcs_pos as int]),
            forall|k: int|
                0 <= k < segments@.len() - 1 && #[trigger] segments@[k] is Old && segments@[k + 1] is Old
                    ==> c[k] + (b[k + 1] - b[k]) < c[k + 1],
            reused(segments@, b, segments@.len() as int) == lcs_pos,
            reused_digests(segments@, b, nd, segments@.len() as int) == l.subrange(0, lcs_pos as int),
            segments@.len() > 0 ==> old_cursor(segments@, b, c, segments@.len() as int) == old_pos,
            segments@.len() == 0 ==> old_pos == 0,
            greedy(segments@, od, nd, l, b, c),
        decreases lcs_len - lcs_pos,
    {
        // a run of new chunks that the old stream lacks
        proof {
            lemma_subseq_skip(
                l.subrange(lcs_pos as int, lcs_len as int),
                digests(ns).subrange(new_pos as int, ns.len() as int),
            );
        }
        let new_segment_start = new_pos;
        let ghost old_pos_head = old_pos;
        let ghost had_segments = segments@.len() > 0;
        while !same_digest(&chunks_new[new_pos].hash, &lcs[lcs_pos])
            invariant
                ns == chunks_new@,
                l == byte_seqs(lcs@),
                lcs_len == lcs@.len(),
                lcs_pos < lcs_len,
                new_segment_start <= new_pos < ns.len(),
                l.len() == lcs_len,
                forall|t: int| new_segment_start <= t < new_pos ==> #[trigger] ns[t].hash@ != l[lcs_pos as int],
                is_subseq(
                    l.subrange(lcs_pos as int, lcs_len as int),
                    digests(ns).subrange(new_pos as int, ns.len() as int),
                ),
            decreases ns.len() - new_pos,
        {
            proof {
                let ds = digests(ns).subrange(new_pos as int, ns.len() as int);
                assert(ds[0] == ns[new_pos as int].hash@);
                assert(ds.drop_first() =~= digests(ns).subrange(new_pos + 1, ns.len() as int));
                lemma_subseq_skip(l.subrange(lcs_pos as int, lcs_len as int), ds.drop_first());
            }
            proof {
                assert(l[lcs_pos as int] == lcs@[lcs_pos as int]@);
            }
            new_pos += 1;
        }
        if new_pos != new_segment_start {
            let segment_start = if new_segment_start == 0 {
                0
            } else {
                chunks_new[new_segment_start - 1].end
            };
            let seg = Segment::New(segment_start..chunks_new[new_pos - 1].end);
            let ghost segs0 = segments@;
            segments.push(seg);
            proof {
                lemma_reused_digests_push(segs0, b, nd, seg, new_pos as int);
                lemma_reused_push(segs0, b, seg, new_pos as int);
                assert forall|t: int| b.last() <= t < new_pos implies #[trigger] nd[t] != l[reused(
                    segs0,
                    b,
                    segs0.len() as int,
                )] by {
                    assert(nd[t] == ns[t].hash@);
                }
                lemma_greedy_push(segs0, od, nd, l, b, c, seg, new_pos as int, 0);
                lemma_old_cursor_prefix(segs0, b, c, seg, new_pos as int, 0, segs0.len() as int);
                b = b.push(new_pos as int);
                c = c.push(0);
                let k = segments@.len() - 1;
                assert(segment_covers(segments@[k], oe, od, ne, nd, b[k], b[k + 1], c[k]));
            }
        }
        // skip the old chunks that the new stream lacks
        proof {
            lemma_subseq_skip(
                l.subrange(lcs_pos as int, lcs_len as int),
                digests(os).subrange(old_pos as int, os.len() as int),
            );
        }
        let ghost old_scan_start = old_pos;
        while !same_digest(&chunks_old[old_pos].hash, &lcs[lcs_pos])
            invariant
                os == chunks_old@,
                l == byte_seqs(lcs@),
                lcs_len == lcs@.len(),
                lcs_pos < lcs_len,
                old_scan_start <= old_pos < os.len(),
                l.len() == lcs_len,
                forall|t: int| old_scan_start <= t < old_pos ==> #[trigger] os[t].hash@ != l[lcs_pos as int],
                is_subseq(
                    l.subrange(lcs_pos as int, lcs_len as int),
                    digests(os).subrange(old_pos as int, os.len() as int),
                ),
            decreases os.len() - old_pos,
        {
            proof {
                let ds = digests(os).subrange(old_pos as int, os.len() as int);
                assert(ds[0] == os[old_pos as int].hash@);
                assert(ds.drop_first() =~= digests(os).subrange(old_pos + 1, os.len() as int));
                lemma_subseq_skip(l.subrange(lcs_pos as int, lcs_len as int), ds.drop_first());
            }
            proof {
                assert(l[lcs_pos as int] == lcs@[lcs_pos as int]@);
            }
            old_pos += 1;
        }
        // a run of chunks that both streams share
        let old_segment_start = old_pos;
        let ghost new_run_start = new_pos;
        let ghost lcs_run_start = lcs_pos;
        loop
            invariant
                os == chunks_old@,
                ns == chunks_new@,
                l == byte_seqs(lcs@),
                lcs_len == lcs@.len(),
                lcs_run_start < lcs_len,
                lcs_run_start <= lcs_pos <= lcs_len,
                new_pos <= ns.len(),
                old_pos <= os.len(),
                old_pos - old_segment_start == new_pos - new_run_start,
                lcs_pos - lcs_run_start == new_pos - new_run_start,
                new_run_start <= new_pos,
                old_segment_start <= old_pos,
                lcs_pos < lcs_len ==> new_pos < ns.len() && old_pos < os.len(),
                lcs_pos < lcs_len ==> is_subseq(
                    l.subrange(lcs_pos as int, lcs_len as int),
                    digests(ns).subrange(new_pos as int, ns.len() as int),
                ),
                lcs_pos < lcs_len ==> is_subseq(
                    l.subrange(lcs_pos as int, lcs_len as int),
                    digests(os).subrange(old_pos as int, os.len() as int),
                ),
                new_pos == new_run_start ==> ns[new_pos as int].hash@ == l[lcs_pos as int]
                    && os[old_pos as int].hash@ == l[lcs_pos as int],
                nd == digests(ns),
                forall|t: int|
                    0 <= t < new_pos - new_run_start ==> #[trigger] nd[new_run_start + t] == l[lcs_run_start + t],
                forall|t: int|
                    0 <= t < new_pos - new_run_start ==> #[trigger] os[old_segment_start + t].hash@
                        == ns[new_run_start + t].hash@,
            ensures
                new_pos > new_run_start,
                lcs_pos < lcs_len ==> !(ns[new_pos as int].hash@ == l[lcs_pos as int]
                    && os[old_pos as int].hash@ == l[lcs_pos as int]),
            decreases lcs_len - lcs_pos,
        {
            if lcs_pos == lcs_len {
                break;
            }
            let same_new = same_digest(&chunks_new[new_pos].hash, &lcs[lcs_pos]);
            let same_old = same_digest(&chunks_old[old_pos].hash, &lcs[lcs_pos]);
            if !(same_new && same_old) {
                proof {
                    assert(l[lcs_pos as int] == lcs@[lcs_pos as int]@);
                }
                break;
            }
            proof {
                let a = l.subrange(lcs_pos as int, lcs_len as int);
                let dn = digests(ns).subrange(new_pos as int, ns.len() as int);
                let d_o = digests(os).subrange(old_pos as int, os.len() as int);
                assert(dn[0] == ns[new_pos as int].hash@);
                assert(d_o[0] == os[old_pos as int].hash@);
                lemma_subseq_skip(a, dn);
                lemma_subseq_skip(a, d_o);
                assert(a.drop_first() =~= l.subrange(lcs_pos + 1, lcs_len as int));
                assert(dn.drop_first() =~= digests(ns).subrange(new_pos + 1, ns.len() as int));
                assert(d_o.drop_first() =~= digests(os).subrange(old_pos + 1, os.len() as int));
                if lcs_pos + 1 < lcs_len {
                    lemma_subseq_skip(a.drop_first(), dn.drop_first());
                    lemma_subseq_skip(a.drop_first(), d_o.drop_first());
                }
            }
            proof {
                assert(l[lcs_pos as int] == lcs@[lcs_pos as int]@);
                assert(nd[new_pos as int] == ns[new_pos as int].hash@);
                assert(nd[new_run_start + (new_pos - new_run_start)] == l[lcs_run_start + (new_pos - new_run_start)]);
            }
            new_pos += 1;
            old_pos += 1;
            lcs_pos += 1;
        }
        if old_pos != old_segment_start {
            let segment_start = if old_segment_start == 0 {
                0
            } else {
                chunks_old[old_segment_start - 1].end
            };
            let seg = Segment::Old(segment_start..chunks_old[old_pos - 1].end);
            let ghost segs0 = segments@;
            segments.push(seg);
            proof {
                lemma_reused_push(segs0, b, seg, new_pos as int);
                lemma_reused_digests_push(segs0, b, nd, seg, new_pos as int);
                assert(old_cursor(segs0, b, c, segs0.len() as int) == old_scan_start);
                assert forall|t: int| old_scan_start <= t < old_segment_start implies #[trigger] od[t] != l[reused(
                    segs0,
                    b,
                    segs0.len() as int,
                )] by {
                    assert(od[t] == os[t].hash@);
                }
                assert(nd.len() == ns.len() && od.len() == os.len());
                if lcs_pos < lcs_len {
                    assert(nd[new_pos as int] == ns[new_pos as int].hash@);
                    assert(od[old_pos as int] == os[old_pos as int].hash@);
                }
                lemma_greedy_push(segs0, od, nd, l, b, c, seg, new_pos as int, old_segment_start as int);
                assert forall|t: int| 0 <= t < new_pos - new_run_start implies nd.subrange(
                    new_run_start as int,
                    new_pos as int,
                )[t] == l.subrange(lcs_run_start as int, lcs_pos as int)[t] by {
                    assert(nd[new_run_start + t] == l[lcs_run_start + t]);
                }
                assert(nd.subrange(new_run_start as int, new_pos as int) =~= l.subrange(
                    lcs_run_start as int,
                    lcs_pos as int,
                ));
                assert(l.subrange(0, lcs_run_start as int) + l.subrange(lcs_run_start as int, lcs_pos as int)
                    =~= l.subrange(0, lcs_pos as int));
                if segs0.len() > 0 && segs0.last() is Old {
                    assert(new_segment_start == new_run_start);
                    assert(had_segments);
                    assert(old_scan_start == old_pos_head);
                    assert(old_segment_start > old_pos_head);
                }
                b = b.push(new_pos as int);
                c = c.push(old_segment_start as int);
                let k = segments@.len() - 1;
                assert(segment_covers(segments@[k], oe, od, ne, nd, b[k], b[k + 1], c[k]));
            }
        }
    }
    // the new chunks after the last shared one
    if new_pos < chunks_new.len() {
        let segment_start = if new_pos == 0 {
            0
        } else {
            chunks_new[new_pos - 1].end
        };
        let seg = Segment::New(segment_start..chunks_new[chunks_new.len() - 1].end);
        let ghost segs0 = segments@;
        segments.push(seg);
        proof {
            lemma_reused_push(segs0, b, seg, ns.len() as int);
            lemma_reused_digests_push(segs0, b, nd, seg, ns.len() as int);
            lemma_greedy_push(segs0, od, nd, l, b, c, seg, ns.len() as int, 0);
            b = b.push(ns.len() as int);
            c = c.push(0);
            let k = segments@.len() - 1;
            assert(segment_covers(segments@[k], oe, od, ne, nd, b[k], b[k + 1], c[k]));
        }
    }
    proof {
        assert(delta_plan(segments@, oe, od, ne, nd, b, c));
        assert(l.subrange(0, lcs_len as int) =~= l);
    }
    segments
}

proof fn lemma_reused_push(segs: Seq<Segment>, b: Seq<int>, x: Segment, y: int)
    requires
        b.len() == segs.len() + 1,
    ensures
        forall|k: int| 0 <= k <= segs.len() ==> reused(segs.push(x), b.push(y), k) == reused(segs, b, k),
        reused(segs.push(x), b.push(y), (segs.len() + 1) as int) == reused(segs, b, segs.len() as int) + (if x is Old {
            y - b.last()
        } else {
            0
        }),
{
    assert forall|k: int| 0 <= k <= segs.len() implies reused(segs.push(x), b.push(y), k) == reused(segs, b, k) by {
        lemma_reused_prefix(segs, b, x, y, k);
    }
}

proof fn lemma_reused_prefix(segs: Seq<Segment>, b: Seq<int>, x: Segment, y: int, k: int)
    requires
        b.len() == segs.len() + 1,
        0 <= k <= segs.len(),
    ensures
        reused(segs.push(x), b.push(y), k) == reused(segs, b, k),
    decreases k,
{
    if k > 0 {
        lemma_reused_prefix(segs, b, x, y, k - 1);
    }
}

/// The bytes that a segment list describes: each `Old` range read from `old`, each `New`
/// range from `new`, concatenated in order.
pub open spec fn apply_segments(old: Seq<u8>, new: Seq<u8>, segs: Seq<Segment>) -> Seq<u8>
    decreases segs.len(),
{
    if segs.len() == 0 {
        Seq::empty()
    } else {
        apply_segments(old, new, segs.drop_last()) + match segs.last() {
            Segment::Old(r) => old.subrange(r.start as int, r.end as int),
            Segment::New(r) => new.subrange(r.start as int, r.end as int),
        }
    }
}

/// The bytes of chunk `i` of the stream `s` cut at the end offsets `ends`.
pub open spec fn chunk_bytes(s: Seq<u8>, ends: Seq<nat>, i: int) -> Seq<u8> {
    s.subrange(chunk_start(ends, i) as int, ends[i] as int)
}

/// An old chunk and a new chunk that share a digest hold the same bytes.
pub open spec fn collision_free(
    old: Seq<u8>,
    oe: Seq<nat>,
    od: Seq<Seq<u8>>,
    new: Seq<u8>,
    ne: Seq<nat>,
    nd: Seq<Seq<u8>>,
) -> bool {
    forall|i: int, j: int|
        0 <= i < oe.len() && 0 <= j < ne.len() && #[trigger] od[i] == #[trigger] nd[j]
            ==> chunk_bytes(old, oe, i) == chunk_bytes(new, ne, j)
}

/// Chunk starts grow with the index and stay within the stream.
pub proof fn lemma_start_bounds(ends: Seq<nat>, len: nat, i: int, j: int)
    requires
        ends_wf(ends, len),
        0 <= i <= j <= ends.len(),
    ensures
        chunk_start(ends, i) <= chunk_start(ends, j) <= len,
{
    if j > 0 {
        assert(ends[j - 1] <= ends.last());
    }
    if 0 < i < j {
        assert(ends[i - 1] <= ends[j - 1]);
    }
}

/// A run of `t` old chunks whose digests match those of `t` new chunks holds the same
/// bytes as they do.
proof fn lemma_run_bytes(
    old: Seq<u8>,
    oe: Seq<nat>,
    od: Seq<Seq<u8>>,
    new: Seq<u8>,
    ne: Seq<nat>,
    nd: Seq<Seq<u8>>,
    c: int,
    lo: int,
    t: int,
)
    requires
        ends_wf(oe, old.len()),
        ends_wf(ne, new.len()),
        collision_free(old, oe, od, new, ne, nd),
        0 <= c,
        0 <= lo,
        0 <= t,
        c + t <= oe.len(),
        lo + t <= ne.len(),
        forall|u: int| 0 <= u < t ==> #[trigger] od[c + u] == nd[lo + u],
    ensures
        old.subrange(chunk_start(oe, c) as int, chunk_start(oe, c + t) as int) == new.subrange(
            chunk_start(ne, lo) as int,
            chunk_start(ne, lo + t) as int,
        ),
    decreases t,
{
    if t == 0 {
        assert(old.subrange(chunk_start(oe, c) as int, chunk_start(oe, c) as int) =~= Seq::empty());
        assert(new.subrange(chunk_start(ne, lo) as int, chunk_start(ne, lo) as int) =~= Seq::empty());
    } else {
        lemma_run_bytes(old, oe, od, new, ne, nd, c, lo, t - 1);
        lemma_start_bounds(oe, old.len(), c, c + t - 1);
        lemma_start_bounds(oe, old.len(), c + t - 1, c + t);
        lemma_start_bounds(ne, new.len(), lo, lo + t - 1);
        lemma_start_bounds(ne, new.len(), lo + t - 1, lo + t);
        assert(od[c + (t - 1)] == nd[lo + (t - 1)]);
        assert(chunk_bytes(old, oe, c + t - 1) == chunk_bytes(new, ne, lo + t - 1));
        assert(old.subrange(chunk_start(oe, c) as int, chunk_start(oe, c + t) as int) =~= old.subrange(
            chunk_start(oe, c) as int,
            chunk_start(oe, c + t - 1) as int,
        ) + chunk_bytes(old, oe, c + t - 1));
        assert(new.subrange(chunk_start(ne, lo) as int, chunk_start(ne, lo + t) as int) =~= new.subrange(
            chunk_start(ne, lo) as int,
            chunk_start(ne, lo + t - 1) as int,
        ) + chunk_bytes(new, ne, lo + t - 1));
    }
}

proof fn lemma_apply_prefix(
    old: Seq<u8>,
    new: Seq<u8>,
    segs: Seq<Segment>,
    oe: Seq<nat>,
    od: Seq<Seq<u8>>,
    ne: Seq<nat>,
    nd: Seq<Seq<u8>>,
    b: Seq<int>,
    c: Seq<int>,
    k: int,
)
    requires
        ends_wf(oe, old.len()),
        ends_wf(ne, new.len()),
        collision_free(old, oe, od, new, ne, nd),
        delta_plan(segs, oe, od, ne, nd, b, c),
        0 <= k <= segs.len(),
    ensures
        apply_segments(old, new, segs.subrange(0, k)) == new.subrange(0, chunk_start(ne, b[k]) as int),
    decreases k,
{
    if k == 0 {
        assert(segs.subrange(0, 0) =~= Seq::<Segment>::empty());
        assert(new.subrange(0, 0) =~= Seq::<u8>::empty());
    } else {
        lemma_apply_prefix(old, new, segs, oe, od, ne, nd, b, c, k - 1);
        assert(segs.subrange(0, k).drop_last() =~= segs.subrange(0, k - 1));
        let lo = b[k - 1];
        let hi = b[k];
        assert(segment_covers(segs[k - 1], oe, od, ne, nd, lo, hi, c[k - 1]));
        lemma_start_bounds(ne, new.len(), lo, hi);
        assert(chunk_start(ne, hi) == ne[hi - 1]);
        match segs[k - 1] {
            Segment::New(r) => {},
            Segment::Old(r) => {
                lemma_run_bytes(old, oe, od, new, ne, nd, c[k - 1], lo, hi - lo);
                assert(chunk_start(oe, c[k - 1] + (hi - lo)) == oe[c[k - 1] + (hi - lo) - 1]);
            },
        }
        assert(new.subrange(0, chunk_start(ne, hi) as int) =~= new.subrange(
            0,
            chunk_start(ne, lo) as int,
        ) + new.subrange(chunk_start(ne, lo) as int, chunk_start(ne, hi) as int));
    }
}

/// Round trip: where the two chunk lists are well formed over their streams and no old
/// chunk shares its digest with a new chunk of other content, reading the segments of a
/// delta plan from the two streams yields exactly the new stream.
pub proof fn lemma_round_trip(
    old: Seq<u8>,
    new: Seq<u8>,
    segs: Seq<Segment>,
    oe: Seq<nat>,
    od: Seq<Seq<u8>>,
    ne: Seq<nat>,
    nd: Seq<Seq<u8>>,
    b: Seq<int>,
    c: Seq<int>,
)
    requires
        ends_wf(oe, old.len()),
        ends_wf(ne, new.len()),
        collision_free(old, oe, od, new, ne, nd),
        delta_plan(segs, oe, od, ne, nd, b, c),
    ensures
        apply_segments(old, new, segs) == new,
{
    lemma_apply_prefix(old, new, segs, oe, od, ne, nd, b, c, segs.len() as int);
    assert(segs.subrange(0, segs.len() as int) =~= segs);
    assert(new.subrange(0, new.len() as int) =~= new);
}

proof fn lemma_reused_bound(segs: Seq<Segment>, b: Seq<int>, k: int)
    requires
        b.len() == segs.len() + 1,
        b[0] == 0,
        forall|x: int| 0 <= x < segs.len() ==> #[trigger] b[x] < b[x + 1],
        0 <= k <= segs.len(),
    ensures
        reused(segs, b, k) <= b[k],
        reused(segs, b, k) == b[k] ==> forall|x: int| 0 <= x < k ==> #[trigger] segs[x] is Old,
    decreases k,
{
    if k > 0 {
        lemma_reused_bound(segs, b, k - 1);
        assert(b[k - 1] < b[k]);
    }
}

proof fn lemma_old_runs_spread(segs: Seq<Segment>, b: Seq<int>, c: Seq<int>, k: int)
    requires
        b.len() == segs.len() + 1,
        c.len() == segs.len(),
        b[0] == 0,
        forall|x: int| 0 <= x < segs.len() ==> #[trigger] segs[x] is Old,
        forall|x: int| 0 <= x < segs.len() ==> 0 <= #[trigger] c[x],
        forall|x: int|
            0 <= x < segs.len() - 1 && #[trigger] segs[x] is Old && segs[x + 1] is Old ==> c[x] + (b[x
                + 1] - b[x]) < c[x + 1],
        0 <= k < segs.len(),
    ensures
        c[k] >= b[k] + k,
    decreases k,
{
    if k > 0 {
        lemma_old_runs_spread(segs, b, c, k - 1);
        assert(segs[k - 1] is Old && segs[k] is Old);
    }
}

/// Identity: a plan over two equal chunk lists that takes every chunk from the old list is
/// the single `Old` range over the whole stream.
pub proof fn lemma_plan_identity(
    segs: Seq<Segment>,
    ends: Seq<nat>,
    ds: Seq<Seq<u8>>,
    len: nat,
    b: Seq<int>,
    c: Seq<int>,
)
    requires
        ends_wf(ends, len),
        delta_plan(segs, ends, ds, ends, ds, b, c),
        reused(segs, b, segs.len() as int) == ends.len(),
    ensures
        segs == seq![Segment::Old(Range { start: 0usize, end: len as usize })],
{
    let n = ends.len() as int;
    assert forall|x: int| 0 <= x < segs.len() implies #[trigger] b[x] < b[x + 1] by {
        assert(segment_covers(segs[x], ends, ds, ends, ds, b[x], b[x + 1], c[x]));
    }
    lemma_reused_bound(segs, b, segs.len() as int);
    assert(segs.len() >= 1);
    assert forall|x: int| 0 <= x < segs.len() implies 0 <= #[trigger] c[x] by {
        assert(segment_covers(segs[x], ends, ds, ends, ds, b[x], b[x + 1], c[x]));
    }
    let last = segs.len() - 1;
    lemma_old_runs_spread(segs, b, c, last);
    assert(segment_covers(segs[last], ends, ds, ends, ds, b[last], b[last + 1], c[last]));
    assert(last == 0);
    assert(segment_covers(segs[0], ends, ds, ends, ds, b[0], b[1], c[0]));
    match segs[0] {
        Segment::Old(r) => {
            assert(c[0] == 0);
            assert(r.start == 0);
            assert(r.end == ends[n - 1]);
            assert(r == Range { start: 0usize, end: len as usize });
        },
        Segment::New(r) => {},
    }
    assert(segs =~= seq![Segment::Old(Range { start: 0usize, end: len as usize })]);
}

/// The digests of the new chunks that the `Old` segments among the first `k` of a plan
/// stand for, in order.
pub open spec fn reused_digests(segs: Seq<Segment>, b: Seq<int>, nd: Seq<Seq<u8>>, k: int) -> Seq<Seq<u8>>
    decreases k,
{
    if k <= 0 {
        Seq::empty()
    } else {
        reused_digests(segs, b, nd, k - 1) + if segs[k - 1] is Old {
            nd.subrange(b[k - 1], b[k])
        } else {
            Seq::empty()
        }
    }
}

proof fn lemma_reused_digests_prefix(segs: Seq<Segment>, b: Seq<int>, nd: Seq<Seq<u8>>, x: Segment, y: int, k: int)
    requires
        b.len() == segs.len() + 1,
        0 <= k <= segs.len(),
    ensures
        reused_digests(segs.push(x), b.push(y), nd, k) == reused_digests(segs, b, nd, k),
    decreases k,
{
    if k > 0 {
        lemma_reused_digests_prefix(segs, b, nd, x, y, k - 1);
    }
}

proof fn lemma_reused_digests_push(segs: Seq<Segment>, b: Seq<int>, nd: Seq<Seq<u8>>, x: Segment, y: int)
    requires
        b.len() == segs.len() + 1,
    ensures
        reused_digests(segs.push(x), b.push(y), nd, (segs.len() + 1) as int) == reused_digests(segs, b, nd, segs.len() as int)
            + if x is Old {
            nd.subrange(b.last(), y)
        } else {
            Seq::empty()
        },
{
    lemma_reused_digests_prefix(segs, b, nd, x, y, segs.len() as int);
    assert(segs.push(x)[segs.len() as int] == x);
    assert(b.push(y)[segs.len() as int] == b.last());
}

/// Where the old list stands before segment `k` of a plan: just past the last `Old` run
/// before it, or at 0.
pub open spec fn old_cursor(segs: Seq<Segment>, b: Seq<int>, c: Seq<int>, k: int) -> int
    decreases k,
{
    if k <= 0 {
        0
    } else if segs[k - 1] is Old {
        c[k - 1] + (b[k] - b[k - 1])
    } else {
        old_cursor(segs, b, c, k - 1)
    }
}

/// The plan matches greedily, as the walk over both lists does: a `New` run holds no chunk
/// with the next digest of `l` (each is matched to the first new chunk that carries it), the
/// old chunks skipped before an `Old` run do not carry it either, and an `Old` run stops only
/// where the next new chunk or the next old chunk does not carry the next digest.
#[verifier::opaque]
pub open spec fn greedy(
    segs: Seq<Segment>,
    od: Seq<Seq<u8>>,
    nd: Seq<Seq<u8>>,
    l: Seq<Seq<u8>>,
    b: Seq<int>,
    c: Seq<int>,
) -> bool {
    &&& forall|k: int, t: int|
        0 <= k < segs.len() && #[trigger] segs[k] is New && reused(segs, b, k) < l.len() && b[k] <= t < b[k
            + 1] ==> #[trigger] nd[t] != l[reused(segs, b, k)]
    &&& forall|k: int, t: int|
        0 <= k < segs.len() && #[trigger] segs[k] is Old && old_cursor(segs, b, c, k) <= t < c[k]
            ==> #[trigger] od[t] != l[reused(segs, b, k)]
    &&& forall|k: int|
        0 <= k < segs.len() && #[trigger] segs[k] is Old && reused(segs, b, k + 1) < l.len() ==> !(b[k + 1]
            < nd.len() && c[k] + (b[k + 1] - b[k]) < od.len() && nd[b[k + 1]] == l[reused(segs, b, k + 1)]
            && od[c[k] + (b[k + 1] - b[k])] == l[reused(segs, b, k + 1)])
}

proof fn lemma_old_cursor_prefix(segs: Seq<Segment>, b: Seq<int>, c: Seq<int>, x: Segment, y: int, z: int, k: int)
    requires
        b.len() == segs.len() + 1,
        c.len() == segs.len(),
        0 <= k <= segs.len(),
    ensures
        old_cursor(segs.push(x), b.push(y), c.push(z), k) == old_cursor(segs, b, c, k),
    decreases k,
{
    if k > 0 {
        lemma_old_cursor_prefix(segs, b, c, x, y, z, k - 1);
    }
}

proof fn lemma_greedy_push(
    segs: Seq<Segment>,
    od: Seq<Seq<u8>>,
    nd: Seq<Seq<u8>>,
    l: Seq<Seq<u8>>,
    b: Seq<int>,
    c: Seq<int>,
    x: Segment,
    y: int,
    z: int,
)
    requires
        b.len() == segs.len() + 1,
        c.len() == segs.len(),
        greedy(segs, od, nd, l, b, c),
        x is New && reused(segs, b, segs.len() as int) < l.len() ==> forall|t: int|
            b.last() <= t < y ==> #[trigger] nd[t] != l[reused(segs, b, segs.len() as int)],
        x is Old ==> forall|t: int|
            old_cursor(segs, b, c, segs.len() as int) <= t < z ==> #[trigger] od[t] != l[reused(
                segs,
                b,
                segs.len() as int,
            )],
        x is Old && reused(segs, b, segs.len() as int) + (y - b.last()) < l.len() ==> !(y < nd.len() && z
            + (y - b.last()) < od.len() && nd[y] == l[reused(segs, b, segs.len() as int) + (y - b.last())]
            && od[z + (y - b.last())] == l[reused(segs, b, segs.len() as int) + (y - b.last())]),
    ensures
        greedy(segs.push(x), od, nd, l, b.push(y), c.push(z)),
{
    reveal(greedy);
    let s2 = segs.push(x);
    let b2 = b.push(y);
    let c2 = c.push(z);
    let n = segs.len() as int;
    lemma_reused_push(segs, b, x, y);
    assert forall|k: int| 0 <= k <= n implies old_cursor(s2, b2, c2, k) == old_cursor(segs, b, c, k) by {
        lemma_old_cursor_prefix(segs, b, c, x, y, z, k);
    }
    assert forall|k: int, t: int|
        0 <= k < s2.len() && #[trigger] s2[k] is New && reused(s2, b2, k) < l.len() && b2[k] <= t < b2[k + 1]
            implies #[trigger] nd[t] != l[reused(s2, b2, k)] by {
        if k < n {
            assert(s2[k] == segs[k] && b2[k] == b[k] && b2[k + 1] == b[k + 1]);
        }
    }
    assert forall|k: int, t: int|
        0 <= k < s2.len() && #[trigger] s2[k] is Old && old_cursor(s2, b2, c2, k) <= t < c2[k] implies #[trigger] od[t]
            != l[reused(s2, b2, k)] by {
        if k < n {
            assert(s2[k] == segs[k] && c2[k] == c[k]);
        }
    }
    assert forall|k: int| 0 <= k < s2.len() && #[trigger] s2[k] is Old && reused(s2, b2, k + 1) < l.len() implies !(b2[k
        + 1] < nd.len() && c2[k] + (b2[k + 1] - b2[k]) < od.len() && nd[b2[k + 1]] == l[reused(s2, b2, k + 1)]
        && od[c2[k] + (b2[k + 1] - b2[k])] == l[reused(s2, b2, k + 1)]) by {
        if k < n {
            assert(s2[k] == segs[k] && c2[k] == c[k] && b2[k] == b[k] && b2[k + 1] == b[k + 1]);
        }
    }
}

/// A segment list that follows a greedy delta plan whose `Old` runs spell out `l`.
pub open spec fn greedy_delta(
    segs: Seq<Segment>,
    oe: Seq<nat>,
    od: Seq<Seq<u8>>,
    ne: Seq<nat>,
    nd: Seq<Seq<u8>>,
    l: Seq<Seq<u8>>,
    b: Seq<int>,
    c: Seq<int>,
) -> bool {
    &&& delta_plan(segs, oe, od, ne, nd, b, c)
    &&& reused(segs, b, segs.len() as int) == l.len()
    &&& reused_digests(segs, b, nd, segs.len() as int) == l
    &&& greedy(segs, od, nd, l, b, c)
}

/// The cuts of a plan climb strictly from 0 within the new list.
pub open spec fn cuts_ok(segs: Seq<Segment>, b: Seq<int>, n: nat) -> bool {
    &&& b.len() == segs.len() + 1
    &&& b[0] == 0
    &&& forall|x: int| 0 <= x < segs.len() ==> 0 <= #[trigger] b[x] < b[x + 1] <= n
}

proof fn lemma_plan_cuts(
    segs: Seq<Segment>,
    oe: Seq<nat>,
    od: Seq<Seq<u8>>,
    ne: Seq<nat>,
    nd: Seq<Seq<u8>>,
    b: Seq<int>,
    c: Seq<int>,
)
    requires
        delta_plan(segs, oe, od, ne, nd, b, c),
    ensures
        cuts_ok(segs, b, nd.len()),
{
    assert forall|x: int| 0 <= x < segs.len() implies 0 <= #[trigger] b[x] < b[x + 1] <= nd.len() by {
        assert(segment_covers(segs[x], oe, od, ne, nd, b[x], b[x + 1], c[x]));
    }
}

proof fn lemma_reused_digests_prefix_of(segs: Seq<Segment>, nd: Seq<Seq<u8>>, b: Seq<int>, j: int, k: int)
    requires
        cuts_ok(segs, b, nd.len()),
        0 <= j <= k <= segs.len(),
    ensures
        reused_digests(segs, b, nd, j).len() == reused(segs, b, j),
        reused(segs, b, j) <= reused(segs, b, k),
        reused_digests(segs, b, nd, k).subrange(0, reused(segs, b, j)) == reused_digests(segs, b, nd, j),
    decreases k,
{
    if k > j {
        lemma_reused_digests_prefix_of(segs, nd, b, j, k - 1);
        assert(0 <= b[k - 1] < b[k] <= nd.len());
        lemma_reused_digests_prefix_of(segs, nd, b, k - 1, k - 1);
        let p = reused_digests(segs, b, nd, k - 1);
        let q = reused_digests(segs, b, nd, k);
        assert(q.subrange(0, reused(segs, b, j)) =~= p.subrange(0, reused(segs, b, j)));
    } else if k > 0 {
        lemma_reused_digests_prefix_of(segs, nd, b, k - 1, k - 1);
        assert(0 <= b[k - 1] < b[k] <= nd.len());
        assert(reused_digests(segs, b, nd, k).subrange(0, reused(segs, b, k)) =~= reused_digests(segs, b, nd, k));
    } else {
        assert(reused_digests(segs, b, nd, 0).subrange(0, 0) =~= reused_digests(segs, b, nd, 0));
    }
}

/// The new chunks of an `Old` segment carry the digests of `l` from the position reached.
proof fn lemma_old_run_digests(segs: Seq<Segment>, nd: Seq<Seq<u8>>, l: Seq<Seq<u8>>, b: Seq<int>, k: int)
    requires
        cuts_ok(segs, b, nd.len()),
        reused_digests(segs, b, nd, segs.len() as int) == l,
        0 <= k < segs.len(),
        segs[k] is Old,
    ensures
        reused(segs, b, k + 1) == reused(segs, b, k) + (b[k + 1] - b[k]) <= l.len(),
        forall|t: int| 0 <= t < b[k + 1] - b[k] ==> #[trigger] nd[b[k] + t] == l[reused(segs, b, k) + t],
{
    let n = segs.len() as int;
    lemma_reused_digests_prefix_of(segs, nd, b, k + 1, n);
    lemma_reused_digests_prefix_of(segs, nd, b, k, k);
    lemma_reused_digests_prefix_of(segs, nd, b, n, n);
    assert(0 <= b[k] < b[k + 1] <= nd.len());
    let p = reused_digests(segs, b, nd, k);
    let q = reused_digests(segs, b, nd, k + 1);
    assert(q == p + nd.subrange(b[k], b[k + 1]));
    assert forall|t: int| 0 <= t < b[k + 1] - b[k] implies #[trigger] nd[b[k] + t] == l[reused(segs, b, k) + t] by {
        assert(q[p.len() + t] == nd[b[k] + t]);
        assert(l.subrange(0, reused(segs, b, k + 1))[p.len() + t] == l[p.len() + t]);
    }
}

proof fn lemma_cursor_le(segs: Seq<Segment>, oe: Seq<nat>, od: Seq<Seq<u8>>, ne: Seq<nat>, nd: Seq<Seq<u8>>, b: Seq<int>, c: Seq<int>, j: int, k: int)
    requires
        delta_plan(segs, oe, od, ne, nd, b, c),
        0 <= j <= k < segs.len(),
        segs[k] is Old,
    ensures
        old_cursor(segs, b, c, j) <= c[k],
    decreases j,
{
    assert(segment_covers(segs[k], oe, od, ne, nd, b[k], b[k + 1], c[k]));
    if j > 0 {
        lemma_cursor_le(segs, oe, od, ne, nd, b, c, j - 1, k);
    }
}

/// The state of a plan before segment `k`: where the new list, the old list and `l` stand.
pub open spec fn same_state(
    s1: Seq<Segment>,
    b1: Seq<int>,
    c1: Seq<int>,
    s2: Seq<Segment>,
    b2: Seq<int>,
    c2: Seq<int>,
    k: int,
) -> bool {
    &&& b1[k] == b2[k]
    &&& old_cursor(s1, b1, c1, k) == old_cursor(s2, b2, c2, k)
    &&& reused(s1, b1, k) == reused(s2, b2, k)
}

#[verifier::spinoff_prover]
#[verifier::rlimit(100)]
proof fn lemma_same_kind(
    s1: Seq<Segment>,
    b1: Seq<int>,
    c1: Seq<int>,
    s2: Seq<Segment>,
    b2: Seq<int>,
    c2: Seq<int>,
    oe: Seq<nat>,
    od: Seq<Seq<u8>>,
    ne: Seq<nat>,
    nd: Seq<Seq<u8>>,
    l: Seq<Seq<u8>>,
    k: int,
)
    requires
        greedy_delta(s1, oe, od, ne, nd, l, b1, c1),
        greedy_delta(s2, oe, od, ne, nd, l, b2, c2),
        0 <= k < s1.len(),
        k < s2.len(),
        same_state(s1, b1, c1, s2, b2, c2, k),
    ensures
        s1[k] is Old <==> s2[k] is Old,
{
    reveal(greedy);
    let np = b1[k];
    let lp = reused(s1, b1, k);
    lemma_plan_cuts(s1, oe, od, ne, nd, b1, c1);
    lemma_plan_cuts(s2, oe, od, ne, nd, b2, c2);
    if s1[k] is Old {
        lemma_old_run_digests(s1, nd, l, b1, k);
        assert(nd[b1[k] + 0] == l[lp + 0]);
        if s2[k] is New {
            assert(b2[k] <= np < b2[k + 1]);
            assert(nd[np] != l[reused(s2, b2, k)]);
        }
    }
    if s2[k] is Old {
        lemma_old_run_digests(s2, nd, l, b2, k);
        assert(nd[b2[k] + 0] == l[lp + 0]);
        if s1[k] is New {
            assert(b1[k] <= np < b1[k + 1]);
            assert(nd[np] != l[reused(s1, b1, k)]);
        }
    }
}

proof fn lemma_greedy_at(
    segs: Seq<Segment>,
    od: Seq<Seq<u8>>,
    nd: Seq<Seq<u8>>,
    l: Seq<Seq<u8>>,
    b: Seq<int>,
    c: Seq<int>,
    k: int,
)
    requires
        greedy(segs, od, nd, l, b, c),
        0 <= k < segs.len(),
    ensures
        segs[k] is Old ==> forall|t: int|
            old_cursor(segs, b, c, k) <= t < c[k] ==> #[trigger] od[t] != l[reused(segs, b, k)],
        segs[k] is Old && reused(segs, b, k + 1) < l.len() ==> !(b[k + 1] < nd.len() && c[k] + (b[k + 1]
            - b[k]) < od.len() && nd[b[k + 1]] == l[reused(segs, b, k + 1)] && od[c[k] + (b[k + 1] - b[k])]
            == l[reused(segs, b, k + 1)]),
{
    reveal(greedy);
}

proof fn lemma_same_new(
    s1: Seq<Segment>,
    b1: Seq<int>,
    c1: Seq<int>,
    s2: Seq<Segment>,
    b2: Seq<int>,
    c2: Seq<int>,
    oe: Seq<nat>,
    od: Seq<Seq<u8>>,
    ne: Seq<nat>,
    nd: Seq<Seq<u8>>,
    l: Seq<Seq<u8>>,
    k: int,
)
    requires
        0 <= k < s1.len(),
        k < s2.len(),
        b1.len() == s1.len() + 1,
        b2.len() == s2.len() + 1,
        same_state(s1, b1, c1, s2, b2, c2, k),
        s1[k] is New,
        s2[k] is New,
        segment_covers(s1[k], oe, od, ne, nd, b1[k], b1[k + 1], c1[k]),
        segment_covers(s2[k], oe, od, ne, nd, b2[k], b2[k + 1], c2[k]),
        reused(s1, b1, k) == l.len() ==> b1[k + 1] == nd.len() && b2[k + 1] == nd.len(),
        reused(s1, b1, k) < l.len() ==> b1[k + 1] < nd.len() && nd[b1[k + 1]] == l[reused(s1, b1, k)]
            && b2[k + 1] < nd.len() && nd[b2[k + 1]] == l[reused(s1, b1, k)],
        reused(s1, b1, k) < l.len() ==> forall|t: int|
            b1[k] <= t < b1[k + 1] ==> #[trigger] nd[t] != l[reused(s1, b1, k)],
        reused(s1, b1, k) < l.len() ==> forall|t: int|
            b2[k] <= t < b2[k + 1] ==> #[trigger] nd[t] != l[reused(s1, b1, k)],
        reused(s1, b1, k) <= l.len(),
    ensures
        s1[k] == s2[k],
        same_state(s1, b1, c1, s2, b2, c2, k + 1),
{
    let lp = reused(s1, b1, k);
    if lp < l.len() {
        if b1[k + 1] < b2[k + 1] {
            assert(nd[b1[k + 1]] != l[lp]);
        } else if b2[k + 1] < b1[k + 1] {
            assert(nd[b2[k + 1]] != l[lp]);
        }
    }
}

proof fn lemma_same_old(
    s1: Seq<Segment>,
    b1: Seq<int>,
    c1: Seq<int>,
    s2: Seq<Segment>,
    b2: Seq<int>,
    c2: Seq<int>,
    oe: Seq<nat>,
    od: Seq<Seq<u8>>,
    ne: Seq<nat>,
    nd: Seq<Seq<u8>>,
    l: Seq<Seq<u8>>,
    k: int,
)
    requires
        0 <= k < s1.len(),
        k < s2.len(),
        b1.len() == s1.len() + 1,
        b2.len() == s2.len() + 1,
        same_state(s1, b1, c1, s2, b2, c2, k),
        s1[k] is Old,
        s2[k] is Old,
        segment_covers(s1[k], oe, od, ne, nd, b1[k], b1[k + 1], c1[k]),
        segment_covers(s2[k], oe, od, ne, nd, b2[k], b2[k + 1], c2[k]),
        oe.len() == od.len(),
        ne.len() == nd.len(),
        reused(s1, b1, k + 1) == reused(s1, b1, k) + (b1[k + 1] - b1[k]) <= l.len(),
        reused(s2, b2, k + 1) == reused(s2, b2, k) + (b2[k + 1] - b2[k]) <= l.len(),
        forall|t: int| 0 <= t < b1[k + 1] - b1[k] ==> #[trigger] nd[b1[k] + t] == l[reused(s1, b1, k) + t],
        forall|t: int| 0 <= t < b2[k + 1] - b2[k] ==> #[trigger] nd[b2[k] + t] == l[reused(s2, b2, k) + t],
        old_cursor(s1, b1, c1, k) <= c1[k],
        old_cursor(s2, b2, c2, k) <= c2[k],
        forall|t: int| old_cursor(s1, b1, c1, k) <= t < c1[k] ==> #[trigger] od[t] != l[reused(s1, b1, k)],
        forall|t: int| old_cursor(s2, b2, c2, k) <= t < c2[k] ==> #[trigger] od[t] != l[reused(s2, b2, k)],
        reused(s1, b1, k + 1) < l.len() ==> !(b1[k + 1] < nd.len() && c1[k] + (b1[k + 1] - b1[k]) < od.len()
            && nd[b1[k + 1]] == l[reused(s1, b1, k + 1)] && od[c1[k] + (b1[k + 1] - b1[k])] == l[reused(
            s1,
            b1,
            k + 1,
        )]),
        reused(s2, b2, k + 1) < l.len() ==> !(b2[k + 1] < nd.len() && c2[k] + (b2[k + 1] - b2[k]) < od.len()
            && nd[b2[k + 1]] == l[reused(s2, b2, k + 1)] && od[c2[k] + (b2[k + 1] - b2[k])] == l[reused(
            s2,
            b2,
            k + 1,
        )]),
    ensures
        s1[k] == s2[k],
        same_state(s1, b1, c1, s2, b2, c2, k + 1),
{
    let np = b1[k];
    let lp = reused(s1, b1, k);
    let x1 = c1[k];
    let x2 = c2[k];
    assert(od[x1 + 0] == nd[np + 0]);
    assert(od[x2 + 0] == nd[np + 0]);
    assert(nd[np + 0] == l[lp + 0]);
    if x1 < x2 {
        assert(od[x1] != l[lp]);
    } else if x2 < x1 {
        assert(od[x2] != l[lp]);
    }
    let l1 = b1[k + 1] - np;
    let l2 = b2[k + 1] - np;
    if l1 < l2 {
        assert(nd[np + l1] == l[lp + l1]);
        assert(od[x1 + l1] == nd[np + l1]);
    } else if l2 < l1 {
        assert(nd[np + l2] == l[lp + l2]);
        assert(od[x2 + l2] == nd[np + l2]);
    }
}

#[verifier::spinoff_prover]
#[verifier::rlimit(100)]
proof fn lemma_unique_from(
    s1: Seq<Segment>,
    b1: Seq<int>,
    c1: Seq<int>,
    s2: Seq<Segment>,
    b2: Seq<int>,
    c2: Seq<int>,
    oe: Seq<nat>,
    od: Seq<Seq<u8>>,
    ne: Seq<nat>,
    nd: Seq<Seq<u8>>,
    l: Seq<Seq<u8>>,
    k: int,
)
    requires
        greedy_delta(s1, oe, od, ne, nd, l, b1, c1),
        greedy_delta(s2, oe, od, ne, nd, l, b2, c2),
        0 <= k <= s1.len(),
        k <= s2.len(),
        s1.subrange(0, k) == s2.subrange(0, k),
        same_state(s1, b1, c1, s2, b2, c2, k),
    ensures
        s1 == s2,
    decreases s1.len() - k,
{
    let n1 = s1.len() as int;
    let n2 = s2.len() as int;
    lemma_plan_cuts(s1, oe, od, ne, nd, b1, c1);
    lemma_plan_cuts(s2, oe, od, ne, nd, b2, c2);
    if k == n1 || k == n2 {
        assert(s1 =~= s1.subrange(0, k));
        assert(s2 =~= s2.subrange(0, k));
    } else {
        lemma_same_kind(s1, b1, c1, s2, b2, c2, oe, od, ne, nd, l, k);
        assert(segment_covers(s1[k], oe, od, ne, nd, b1[k], b1[k + 1], c1[k]));
        assert(segment_covers(s2[k], oe, od, ne, nd, b2[k], b2[k + 1], c2[k]));
        lemma_reused_digests_prefix_of(s1, nd, b1, k, n1);
        if s1[k] is New {
            lemma_new_run_end(s1, oe, od, ne, nd, l, b1, c1, k);
            lemma_new_run_end(s2, oe, od, ne, nd, l, b2, c2, k);
            lemma_same_new(s1, b1, c1, s2, b2, c2, oe, od, ne, nd, l, k);
        } else {
            lemma_old_run_digests(s1, nd, l, b1, k);
            lemma_old_run_digests(s2, nd, l, b2, k);
            lemma_cursor_le(s1, oe, od, ne, nd, b1, c1, k, k);
            lemma_cursor_le(s2, oe, od, ne, nd, b2, c2, k, k);
            lemma_greedy_at(s1, od, nd, l, b1, c1, k);
            lemma_greedy_at(s2, od, nd, l, b2, c2, k);
            lemma_same_old(s1, b1, c1, s2, b2, c2, oe, od, ne, nd, l, k);
        }
        assert(s1.subrange(0, k + 1) =~= s1.subrange(0, k).push(s1[k]));
        assert(s2.subrange(0, k + 1) =~= s2.subrange(0, k).push(s2[k]));
        lemma_unique_from(s1, b1, c1, s2, b2, c2, oe, od, ne, nd, l, k + 1);
    }
}

/// A `New` segment ends where the next digest of `l` first appears, or at the end of the
/// new list once `l` is used up.
#[verifier::spinoff_prover]
#[verifier::rlimit(100)]
proof fn lemma_new_run_end(
    segs: Seq<Segment>,
    oe: Seq<nat>,
    od: Seq<Seq<u8>>,
    ne: Seq<nat>,
    nd: Seq<Seq<u8>>,
    l: Seq<Seq<u8>>,
    b: Seq<int>,
    c: Seq<int>,
    k: int,
)
    requires
        greedy_delta(segs, oe, od, ne, nd, l, b, c),
        0 <= k < segs.len(),
        segs[k] is New,
    ensures
        reused(segs, b, k + 1) == reused(segs, b, k),
        reused(segs, b, k) == l.len() ==> b[k + 1] == nd.len(),
        reused(segs, b, k) < l.len() ==> b[k + 1] < nd.len() && nd[b[k + 1]] == l[reused(segs, b, k)],
        reused(segs, b, k) < l.len() ==> forall|t: int| b[k] <= t < b[k + 1] ==> #[trigger] nd[t] != l[reused(segs, b, k)],
{
    reveal(greedy);
    let n = segs.len() as int;
    lemma_plan_cuts(segs, oe, od, ne, nd, b, c);
    lemma_reused_digests_prefix_of(segs, nd, b, k + 1, n);
    if k + 1 < n {
        assert(!(segs[k] is New && segs[k + 1] is New));
        lemma_old_run_digests(segs, nd, l, b, k + 1);
        assert(segment_covers(segs[k + 1], oe, od, ne, nd, b[k + 1], b[k + 2], c[k + 1]));
        assert(nd[b[k + 1] + 0] == l[reused(segs, b, k + 1) + 0]);
        if k + 2 <= n {
            lemma_reused_digests_prefix_of(segs, nd, b, k + 2, n);
        }
    }
}

/// The delta is determined by its inputs: two segment lists that follow a greedy plan over
/// the same chunk lists, reusing exactly the digests of `l`, are equal.
pub proof fn lemma_delta_unique(
    s1: Seq<Segment>,
    b1: Seq<int>,
    c1: Seq<int>,
    s2: Seq<Segment>,
    b2: Seq<int>,
    c2: Seq<int>,
    oe: Seq<nat>,
    od: Seq<Seq<u8>>,
    ne: Seq<nat>,
    nd: Seq<Seq<u8>>,
    l: Seq<Seq<u8>>,
)
    requires
        greedy_delta(s1, oe, od, ne, nd, l, b1, c1),
        greedy_delta(s2, oe, od, ne, nd, l, b2, c2),
    ensures
        s1 == s2,
{
    assert(s1.subrange(0, 0) =~= s2.subrange(0, 0));
    lemma_unique_from(s1, b1, c1, s2, b2, c2, oe, od, ne, nd, l, 0);
}

} // verus!
