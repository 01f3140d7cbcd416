use crate::delta::{
    apply_segments, byte_seqs, collision_free, delta, delta_plan, digests, ends_increasing, ends_of,
    is_subseq, lemma_plan_identity, lemma_round_trip, lemma_start_bounds, reused, segment_covers,
    Segment,
};
use crate::digester::{Hasher, Sha256Hasher};
use crate::helper::{is_pow2, is_power_of_two};
use crate::lcs::{keys, lcs, matrix_fits, Symbol};
use crate::polynomial::{polynomial_hash, PolynomialRollingHasher, DEFAULT_BASE, DEFAULT_MODULUS};
use crate::patcher::{bytes_used, lemma_apply_len, ranges_ok};
use crate::rolling_hasher::RollingHasher;
use crate::slicer::{
    chunk_digests, chunk_ends, chunk_start, chunks_match, ends_wf, lemma_chunk_bounds, Chunk, Slicer,
};
use std::ops::Range;
use vstd::prelude::*;

verus! {

/// The rolling-hash window size used when none is given. A small power of two: the window
/// must fit in the smallest chunk.
pub const DEFAULT_WINDOW_SIZE: u32 = 64;

/// The smallest chunk size used when none is given.
pub const DEFAULT_MIN_CHUNK_SIZE: usize = 4096;

/// The largest chunk size used when none is given.
pub const DEFAULT_MAX_CHUNK_SIZE: usize = 16384;

/// The boundary mask used when none is given: 12 low bits, for chunks of 4096 bytes on
/// average.
pub const DEFAULT_BOUNDARY_MASK: u32 = 0xFFF;

/// Why a delta cannot be computed.
#[derive(Debug, PartialEq, Eq, Clone, Copy)]
pub enum DiffError {
    /// The window size is not a power of two, the smallest chunk size is below it, or the
    /// largest chunk size is below the smallest.
    InvalidConfig,
}

/// A window size, a smallest and a largest chunk size that can work together.
pub open spec fn config_valid(window_size: u32, min_chunk_size: usize, max_chunk_size: usize) -> bool {
    &&& window_size != 0
    &&& is_pow2(window_size as nat)
    &&& window_size <= min_chunk_size
    &&& min_chunk_size <= max_chunk_size
}

/// The rolling hash that the differ slices with, as a function of the stream read.
pub open spec fn poly_hash_fn(window_size: nat) -> spec_fn(Seq<u8>) -> u32 {
    |p: Seq<u8>| polynomial_hash(p, window_size, DEFAULT_MODULUS as nat, DEFAULT_BASE as nat)
}

/// The end offsets of the chunks that the differ cuts the stream `s` into.
pub open spec fn stream_ends(s: Seq<u8>, window_size: nat, mask: u32, min: nat, max: nat) -> Seq<nat> {
    chunk_ends(poly_hash_fn(window_size), mask, min, max, s)
}

/// The SHA-256 digests of the chunks of `s` cut at `ends`.
pub open spec fn stream_digests(s: Seq<u8>, ends: Seq<nat>) -> Seq<Seq<u8>> {
    chunk_digests::<Sha256Hasher>(ends, s)
}

/// What a delta between `old` and `new` satisfies: it follows a delta plan over their chunk
/// lists that takes as many chunks from `old` as the longest common subsequence of their
/// digests holds (where its matrix fits in memory addresses); where no old chunk shares its
/// digest with a new chunk of other content, it rebuilds `new` exactly; and the delta of a
/// stream against itself is the single `Old` range over the whole stream.
pub open spec fn delta_of(
    segs: Seq<Segment>,
    old: Seq<u8>,
    new: Seq<u8>,
    window_size: nat,
    mask: u32,
    min: nat,
    max: nat,
) -> bool {
    let oe = stream_ends(old, window_size, mask, min, max);
    let ne = stream_ends(new, window_size, mask, min, max);
    let od = stream_digests(old, oe);
    let nd = stream_digests(new, ne);
    &&& exists|b: Seq<int>, c: Seq<int>|
        #[trigger] delta_plan(segs, oe, od, ne, nd, b, c) && (matrix_fits(oe.len(), ne.len())
            ==> forall|cs: Seq<Seq<u8>>|
            is_subseq(cs, od) && #[trigger] is_subseq(cs, nd) ==> cs.len() <= reused(
                segs,
                b,
                segs.len() as int,
            ))
    &&& collision_free(old, oe, od, new, ne, nd) ==> apply_segments(old, new, segs) == new
    &&& old == new && matrix_fits(oe.len(), oe.len()) ==> segs == seq![
        Segment::Old(Range { start: 0usize, end: old.len() as usize }),
    ]
}

/// Compares an old and a new version of a stream, fed in pieces, and hands out the delta
/// that rebuilds the new version from ranges of both.
pub struct Differ {
    slicer_old: Slicer<PolynomialRollingHasher, Sha256Hasher>,
    slicer_new: Slicer<PolynomialRollingHasher, Sha256Hasher>,
    window: Ghost<nat>,
}

impl Differ {
    pub closed spec fn old_stream(&self) -> Seq<u8> {
        self.slicer_old.stream()
    }

    pub closed spec fn new_stream(&self) -> Seq<u8> {
        self.slicer_new.stream()
    }

    pub closed spec fn window(&self) -> nat {
        self.window@
    }

    pub closed spec fn mask(&self) -> u32 {
        self.slicer_old.mask()
    }

    pub closed spec fn min(&self) -> nat {
        self.slicer_old.min()
    }

    pub closed spec fn max(&self) -> nat {
        self.slicer_old.max()
    }

    pub closed spec fn wf(&self) -> bool {
        &&& self.slicer_old.wf()
        &&& self.slicer_new.wf()
        &&& self.slicer_old.hash_fn() == poly_hash_fn(self.window())
        &&& self.slicer_new.hash_fn() == self.slicer_old.hash_fn()
        &&& self.slicer_new.mask() == self.slicer_old.mask()
        &&& self.slicer_new.min() == self.slicer_old.min()
        &&& self.slicer_new.max() == self.slicer_old.max()
        &&& 1 <= self.slicer_old.min() <= self.slicer_old.max()
    }
}

/// Two slicers, for the old and the new stream, each over a fresh polynomial rolling hash
/// with the default modulus and base and a fresh SHA-256 digester.
pub fn make_slicers(
    window_size: u32,
    min_chunk_size: usize,
    max_chunk_size: usize,
    boundary_mask: u32,
) -> (r: (Slicer<PolynomialRollingHasher, Sha256Hasher>, Slicer<PolynomialRollingHasher, Sha256Hasher>))
    requires
        config_valid(window_size, min_chunk_size, max_chunk_size),
    ensures
        r.0.wf(),
        r.1.wf(),
        r.0.stream() == Seq::<u8>::empty(),
        r.1.stream() == Seq::<u8>::empty(),
        r.0.hash_fn() == poly_hash_fn(window_size as nat),
        r.1.hash_fn() == poly_hash_fn(window_size as nat),
        r.0.mask() == boundary_mask,
        r.1.mask() == boundary_mask,
        r.0.min() == min_chunk_size,
        r.1.min() == min_chunk_size,
        r.0.max() == max_chunk_size,
        r.1.max() == max_chunk_size,
{
    let rolling_hasher_old = PolynomialRollingHasher::new(window_size, None, None);
    let hasher_old = Sha256Hasher::new(max_chunk_size);
    let slicer_old = Slicer::new(
        rolling_hasher_old,
        hasher_old,
        boundary_mask,
        min_chunk_size,
        max_chunk_size,
    );
    let rolling_hasher_new = PolynomialRollingHasher::new(window_size, None, None);
    let hasher_new = Sha256Hasher::new(max_chunk_size);
    let slicer_new = Slicer::new(
        rolling_hasher_new,
        hasher_new,
        boundary_mask,
        min_chunk_size,
        max_chunk_size,
    );
    proof {
        assert(slicer_old.hash_fn() =~= poly_hash_fn(window_size as nat));
        assert(slicer_new.hash_fn() =~= poly_hash_fn(window_size as nat));
    }
    (slicer_old, slicer_new)
}

impl Differ {
    /// A differ for streams fed in pieces. Options left out take their defaults; the
    /// configuration is refused unless the window size is a power of two no larger than the
    /// smallest chunk size, which is no larger than the largest.
    pub fn new(
        window_size: Option<u32>,
        min_chunk_size: Option<usize>,
        max_chunk_size: Option<usize>,
        boundary_mask: Option<u32>,
    ) -> (r: Result<Differ, DiffError>)
        ensures
            ({
                let w = match window_size {
                    Some(v) => v,
                    None => DEFAULT_WINDOW_SIZE,
                };
                let min = match min_chunk_size {
                    Some(v) => v,
                    None => DEFAULT_MIN_CHUNK_SIZE,
                };
                let max = match max_chunk_size {
                    Some(v) => v,
                    None => DEFAULT_MAX_CHUNK_SIZE,
                };
                let mask = match boundary_mask {
                    Some(v) => v,
                    None => DEFAULT_BOUNDARY_MASK,
                };
                &&& r is Ok <==> config_valid(w, min, max)
                &&& r is Err ==> r == Err::<Differ, DiffError>(DiffError::InvalidConfig)
                &&& r matches Ok(d) ==> {
                    &&& d.wf()
                    &&& d.old_stream() == Seq::<u8>::empty()
                    &&& d.new_stream() == Seq::<u8>::empty()
                    &&& d.window() == w
                    &&& d.mask() == mask
                    &&& d.min() == min
                    &&& d.max() == max
                }
            }),
    {
        let window_size = match window_size {
            Some(v) => v,
            None => DEFAULT_WINDOW_SIZE,
        };
        let min_chunk_size = match min_chunk_size {
            Some(v) => v,
            None => DEFAULT_MIN_CHUNK_SIZE,
        };
        let max_chunk_size = match max_chunk_size {
            Some(v) => v,
            None => DEFAULT_MAX_CHUNK_SIZE,
        };
        let boundary_mask = match boundary_mask {
            Some(v) => v,
            None => DEFAULT_BOUNDARY_MASK,
        };
        if window_size == 0 || !is_power_of_two(window_size) || (window_size as usize) > min_chunk_size
            || max_chunk_size < min_chunk_size {
            return Err(DiffError::InvalidConfig);
        }
        let (slicer_old, slicer_new) = make_slicers(
            window_size,
            min_chunk_size,
            max_chunk_size,
            boundary_mask,
        );
        Ok(Differ { slicer_old, slicer_new, window: Ghost(window_size as nat) })
    }
}

/// The digests of a chunk list, copied out.
fn chunk_hashes(chunks: &Vec<Chunk>) -> (r: Vec<Vec<u8>>)
    ensures
        byte_seqs(r@) == digests(chunks@),
{
    let mut r: Vec<Vec<u8>> = Vec::with_capacity(chunks.len());
    let mut i: usize = 0;
    while i < chunks.len()
        invariant
            i <= chunks@.len(),
            r@.len() == i,
            forall|k: int| 0 <= k < i ==> #[trigger] r@[k]@ == chunks@[k].hash@,
        decreases chunks@.len() - i,
    {
        r.push(chunks[i].hash.duplicate());
        i = i + 1;
    }
    proof {
        assert(byte_seqs(r@) =~= digests(chunks@));
    }
    r
}

impl Differ {
    /// Feeds the next bytes of the old stream.
    pub fn process_old(&mut self, buffer: &[u8])
        requires
            old(self).wf(),
            old(self).old_stream().len() + buffer@.len() <= usize::MAX,
        ensures
            final(self).wf(),
            final(self).old_stream() == old(self).old_stream() + buffer@,
            final(self).new_stream() == old(self).new_stream(),
            final(self).window() == old(self).window(),
            final(self).mask() == old(self).mask(),
            final(self).min() == old(self).min(),
            final(self).max() == old(self).max(),
    {
        self.slicer_old.process(buffer);
    }

    /// Feeds the next bytes of the new stream.
    pub fn process_new(&mut self, buffer: &[u8])
        requires
            old(self).wf(),
            old(self).new_stream().len() + buffer@.len() <= usize::MAX,
        ensures
            final(self).wf(),
            final(self).new_stream() == old(self).new_stream() + buffer@,
            final(self).old_stream() == old(self).old_stream(),
            final(self).window() == old(self).window(),
            final(self).mask() == old(self).mask(),
            final(self).min() == old(self).min(),
            final(self).max() == old(self).max(),
    {
        self.slicer_new.process(buffer);
    }

    /// Closes both streams and hands out the delta: the chunk digests of the two streams are
    /// matched along a longest common subsequence, and the new stream is described as runs
    /// of new bytes and runs of old chunks. Where the subsequence matrix would not fit in
    /// memory addresses, no chunk is matched and the delta sends the new stream whole. The
    /// differ is consumed, so nothing can be fed to it or asked of it afterwards.
    pub fn finalize(self) -> (r: Vec<Segment>)
        requires
            self.wf(),
        ensures
            delta_of(r@, self.old_stream(), self.new_stream(), self.window(), self.mask(), self.min(), self.max()),
    {
        let ghost so = self.old_stream();
        let ghost sn = self.new_stream();
        let ghost w = self.window();
        let ghost mask = self.mask();
        let ghost min = self.min();
        let ghost max = self.max();
        let ghost oe = stream_ends(so, w, mask, min, max);
        let ghost ne = stream_ends(sn, w, mask, min, max);
        let ghost od = stream_digests(so, oe);
        let ghost nd = stream_digests(sn, ne);
        let Differ { slicer_old, slicer_new, window } = self;
        let chunks_old = slicer_old.finalize();
        let chunks_new = slicer_new.finalize();
        proof {
            lemma_chunk_bounds(poly_hash_fn(w), mask, min, max, so);
            lemma_chunk_bounds(poly_hash_fn(w), mask, min, max, sn);
            assert(ends_of(chunks_old@) =~= oe);
            assert(ends_of(chunks_new@) =~= ne);
            assert(digests(chunks_old@) =~= od);
            assert(digests(chunks_new@) =~= nd);
        }
        let hashes_old = chunk_hashes(&chunks_old);
        let hashes_new = chunk_hashes(&chunks_new);
        let lcs = lcs(hashes_old.as_slice(), hashes_new.as_slice());
        proof {
            assert(keys(lcs@) =~= byte_seqs(lcs@));
            assert(keys(hashes_old@) =~= byte_seqs(hashes_old@));
            assert(keys(hashes_new@) =~= byte_seqs(hashes_new@));
        }
        let r = delta(chunks_old.as_slice(), chunks_new.as_slice(), lcs.as_slice());
        proof {
            let (b, c) = choose|b: Seq<int>, c: Seq<int>| #[trigger] delta_plan(r@, oe, od, ne, nd, b, c)
                && reused(r@, b, r@.len() as int) == lcs@.len();
            if collision_free(so, oe, od, sn, ne, nd) {
                lemma_round_trip(so, sn, r@, oe, od, ne, nd, b, c);
            }
            if so == sn && matrix_fits(oe.len(), oe.len()) {
                assert(keys(hashes_old@) == keys(hashes_new@));
                assert(lcs@.len() == keys(lcs@).len());
                lemma_plan_identity(r@, oe, od, so.len(), b, c);
            }
        }
        r
    }

    /// The delta of two streams held in memory; see `new` and `finalize`.
    pub fn diff(
        buffer_old: &[u8],
        buffer_new: &[u8],
        window_size: Option<u32>,
        min_chunk_size: Option<usize>,
        max_chunk_size: Option<usize>,
        boundary_mask: Option<u32>,
    ) -> (r: Result<Vec<Segment>, DiffError>)
        ensures
            ({
                let w = match window_size {
                    Some(v) => v,
                    None => DEFAULT_WINDOW_SIZE,
                };
                let min = match min_chunk_size {
                    Some(v) => v,
                    None => DEFAULT_MIN_CHUNK_SIZE,
                };
                let max = match max_chunk_size {
                    Some(v) => v,
                    None => DEFAULT_MAX_CHUNK_SIZE,
                };
                let mask = match boundary_mask {
                    Some(v) => v,
                    None => DEFAULT_BOUNDARY_MASK,
                };
                &&& r is Ok <==> config_valid(w, min, max)
                &&& r is Err ==> r == Err::<Vec<Segment>, DiffError>(DiffError::InvalidConfig)
                &&& r matches Ok(segs) ==> delta_of(segs@, buffer_old@, buffer_new@, w as nat, mask, min as nat, max as nat)
            }),
    {
        let mut differ = match Differ::new(window_size, min_chunk_size, max_chunk_size, boundary_mask) {
            Ok(d) => d,
            Err(e) => {
                return Err(e);
            },
        };
        // a slice's length is a machine word, which bounds the streams fed
        let old_len = buffer_old.len();
        let new_len = buffer_new.len();
        proof {
            assert(old_len == buffer_old@.len() && new_len == buffer_new@.len());
        }
        differ.process_old(buffer_old);
        differ.process_new(buffer_new);
        proof {
            assert(Seq::<u8>::empty() + buffer_old@ =~= buffer_old@);
            assert(Seq::<u8>::empty() + buffer_new@ =~= buffer_new@);
        }
        Ok(differ.finalize())
    }
}

/// Round trip: where no old chunk shares its digest with a new chunk of other content, a
/// delta of `old` and `new` has only ranges within the two streams, reads exactly as many
/// bytes as `new` holds, and patching `old` with it rebuilds `new`.
pub proof fn lemma_patch_round_trip(
    old: Seq<u8>,
    new: Seq<u8>,
    segs: Seq<Segment>,
    window_size: nat,
    mask: u32,
    min: nat,
    max: nat,
)
    requires
        1 <= min <= max,
        delta_of(segs, old, new, window_size, mask, min, max),
        collision_free(
            old,
            stream_ends(old, window_size, mask, min, max),
            stream_digests(old, stream_ends(old, window_size, mask, min, max)),
            new,
            stream_ends(new, window_size, mask, min, max),
            stream_digests(new, stream_ends(new, window_size, mask, min, max)),
        ),
    ensures
        ranges_ok(old.len(), new.len(), segs),
        bytes_used(segs, segs.len() as int, true) + bytes_used(segs, segs.len() as int, false)
            == new.len(),
        apply_segments(old, new, segs) == new,
{
    let oe = stream_ends(old, window_size, mask, min, max);
    let ne = stream_ends(new, window_size, mask, min, max);
    let od = stream_digests(old, oe);
    let nd = stream_digests(new, ne);
    lemma_chunk_bounds(poly_hash_fn(window_size), mask, min, max, old);
    lemma_chunk_bounds(poly_hash_fn(window_size), mask, min, max, new);
    let (b, c) = choose|b: Seq<int>, c: Seq<int>| #[trigger] delta_plan(segs, oe, od, ne, nd, b, c);
    assert forall|k: int| 0 <= k < segs.len() implies match #[trigger] segs[k] {
        Segment::Old(r) => r.start <= r.end <= old.len(),
        Segment::New(r) => r.start <= r.end <= new.len(),
    } by {
        assert(segment_covers(segs[k], oe, od, ne, nd, b[k], b[k + 1], c[k]));
        match segs[k] {
            Segment::Old(r) => {
                let hi = c[k] + (b[k + 1] - b[k]);
                lemma_start_bounds(oe, old.len(), c[k], hi);
                assert(chunk_start(oe, hi) == oe[hi - 1]);
            },
            Segment::New(r) => {
                lemma_start_bounds(ne, new.len(), b[k], b[k + 1]);
                assert(chunk_start(ne, b[k + 1]) == ne[b[k + 1] - 1]);
            },
        }
    }
    lemma_apply_len(old, new, segs, segs.len() as int);
    assert(segs.subrange(0, segs.len() as int) =~= segs);
}

} // verus!
