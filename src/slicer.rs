use crate::digester::Hasher;
use crate::rolling_hasher::RollingHasher;
use vstd::prelude::*;

verus! {

/// One content-defined chunk of a stream: its digest and the offset just past its last byte.
/// The chunk starts where the previous one ends, or at 0.
pub struct Chunk {
    pub hash: Vec<u8>,
    pub end: usize,
}

/// Where the chunk with index `i` starts, given the end offsets of all chunks.
pub open spec fn chunk_start(ends: Seq<nat>, i: int) -> nat {
    if i <= 0 {
        0
    } else {
        ends[i - 1]
    }
}

/// The chunk boundary rule: the closed chunks' end offsets and the size of the open chunk,
/// once the stream `s` has been read. `hf(p)` is the rolling hash reported as the last byte
/// of `p` enters the window. Before each byte the open chunk is closed if it has at least
/// `min` bytes and the hash ANDed with `mask` is zero, or if it has `max` bytes; the byte
/// itself then starts the next chunk.
pub open spec fn cut_state(
    hf: spec_fn(Seq<u8>) -> u32,
    mask: u32,
    min: nat,
    max: nat,
    s: Seq<u8>,
) -> (Seq<nat>, nat)
    decreases s.len(),
{
    if s.len() == 0 {
        (Seq::empty(), 0)
    } else {
        let p = s.drop_last();
        let (ends, size) = cut_state(hf, mask, min, max, p);
        if (size >= min && hf(s) & mask == 0) || size == max {
            (ends.push(p.len()), 1)
        } else {
            (ends, size + 1)
        }
    }
}

/// The end offsets of all chunks of the stream `s`, the trailing one included.
pub open spec fn chunk_ends(
    hf: spec_fn(Seq<u8>) -> u32,
    mask: u32,
    min: nat,
    max: nat,
    s: Seq<u8>,
) -> Seq<nat> {
    cut_state(hf, mask, min, max, s).0.push(s.len())
}

/// `chunks` holds, for each of `ends`, that end offset and the digest (by `H`) of the
/// bytes of `s` from the chunk's start to it.
pub open spec fn chunks_match<H: Hasher>(chunks: Seq<Chunk>, ends: Seq<nat>, s: Seq<u8>) -> bool {
    &&& chunks.len() == ends.len()
    &&& forall|i: int|
        0 <= i < chunks.len() ==> {
            &&& #[trigger] chunks[i].end == ends[i]
            &&& chunks[i].hash@ == H::digest_of(s.subrange(chunk_start(ends, i) as int, ends[i] as int))
        }
}

/// The digests (by `H`) of the chunks of `s` cut at the end offsets `ends`.
pub open spec fn chunk_digests<H: Hasher>(ends: Seq<nat>, s: Seq<u8>) -> Seq<Seq<u8>> {
    Seq::new(ends.len(), |i: int| H::digest_of(s.subrange(chunk_start(ends, i) as int, ends[i] as int)))
}

/// Offsets of a well-formed chunk list over a stream of length `len`: strictly increasing,
/// starting above 0 and ending at `len`, or the single offset 0 for an empty stream.
pub open spec fn ends_wf(ends: Seq<nat>, len: nat) -> bool {
    &&& ends.len() >= 1
    &&& ends.last() == len
    &&& forall|i: int, j: int| 0 <= i < j < ends.len() ==> ends[i] < ends[j]
    &&& len > 0 ==> ends[0] > 0
}

/// What holds of the boundary rule at every point of the stream.
pub open spec fn cut_state_inv(st: (Seq<nat>, nat), min: nat, max: nat, len: nat) -> bool {
    let (ends, size) = st;
    &&& size <= max
    &&& size <= len
    &&& len > 0 ==> size >= 1
    &&& forall|i: int| 0 <= i < ends.len() ==> min <= #[trigger] ends[i] - chunk_start(ends, i) <= max
    &&& forall|i: int, j: int| 0 <= i < j < ends.len() ==> ends[i] < ends[j]
    &&& ends.len() > 0 ==> ends.last() + size == len
    &&& ends.len() == 0 ==> size == len
}

/// The boundary rule keeps `cut_state_inv` at every point of the stream.
pub proof fn lemma_cut_state_inv(
    hf: spec_fn(Seq<u8>) -> u32,
    mask: u32,
    min: nat,
    max: nat,
    s: Seq<u8>,
)
    requires
        1 <= min <= max,
    ensures
        cut_state_inv(cut_state(hf, mask, min, max, s), min, max, s.len()),
    decreases s.len(),
{
    if s.len() > 0 {
        lemma_cut_state_inv(hf, mask, min, max, s.drop_last());
        let (ends, size) = cut_state(hf, mask, min, max, s.drop_last());
        let (ends2, size2) = cut_state(hf, mask, min, max, s);
        if ends2.len() > ends.len() {
            assert(ends2 == ends.push((s.len() - 1) as nat));
            assert forall|i: int| 0 <= i < ends2.len() implies min <= #[trigger] ends2[i]
                - chunk_start(ends2, i) <= max by {
                if i < ends.len() {
                    assert(ends2[i] == ends[i]);
                    assert(chunk_start(ends2, i) == chunk_start(ends, i));
                }
            }
        }
    }
}

/// Every chunk has between `min` and `max` bytes, but the trailing one, which has at most
/// `max` bytes and at least one unless the stream is empty; and the offsets form a
/// well-formed chunk list over the stream.
pub proof fn lemma_chunk_bounds(
    hf: spec_fn(Seq<u8>) -> u32,
    mask: u32,
    min: nat,
    max: nat,
    s: Seq<u8>,
)
    requires
        1 <= min <= max,
    ensures
        ({
            let ends = chunk_ends(hf, mask, min, max, s);
            &&& ends_wf(ends, s.len())
            &&& forall|i: int|
                0 <= i < ends.len() - 1 ==> min <= #[trigger] ends[i] - chunk_start(ends, i) <= max
            &&& ends.last() - chunk_start(ends, ends.len() - 1) <= max
        }),
{
    lemma_cut_state_inv(hf, mask, min, max, s);
    let (cut, size) = cut_state(hf, mask, min, max, s);
    let ends = chunk_ends(hf, mask, min, max, s);
    assert forall|i: int| 0 <= i < ends.len() - 1 implies min <= #[trigger] ends[i]
        - chunk_start(ends, i) <= max by {
        assert(ends[i] == cut[i]);
        assert(chunk_start(ends, i) == chunk_start(cut, i));
    }
    if cut.len() > 0 {
        assert(ends[0] == cut[0]);
        assert(cut[0] - chunk_start(cut, 0) >= min);
    }
}

proof fn lemma_chunks_extend<H: Hasher>(chunks: Seq<Chunk>, ends: Seq<nat>, s: Seq<u8>, b: u8)
    requires
        chunks_match::<H>(chunks, ends, s),
        forall|i: int| 0 <= i < ends.len() ==> chunk_start(ends, i) <= #[trigger] ends[i] <= s.len(),
    ensures
        chunks_match::<H>(chunks, ends, s.push(b)),
{
    assert forall|i: int| 0 <= i < ends.len() implies s.subrange(
        chunk_start(ends, i) as int,
        ends[i] as int,
    ) == s.push(b).subrange(chunk_start(ends, i) as int, ends[i] as int) by {
        assert(s.subrange(chunk_start(ends, i) as int, ends[i] as int) =~= s.push(b).subrange(
            chunk_start(ends, i) as int,
            ends[i] as int,
        ));
    }
}

proof fn lemma_chunks_close<H: Hasher>(chunks: Seq<Chunk>, ends: Seq<nat>, s: Seq<u8>, c: Chunk)
    requires
        chunks_match::<H>(chunks, ends, s),
        c.end == s.len(),
        c.hash@ == H::digest_of(s.subrange(chunk_start(ends, ends.len() as int) as int, s.len() as int)),
    ensures
        chunks_match::<H>(chunks.push(c), ends.push(s.len()), s),
{
    let ends2 = ends.push(s.len());
    let k = ends.len() as int;
    assert(chunk_start(ends2, k) == chunk_start(ends, k));
    assert forall|i: int| 0 <= i < chunks.len() + 1 implies {
        &&& #[trigger] chunks.push(c)[i].end == ends2[i]
        &&& chunks.push(c)[i].hash@ == H::digest_of(
            s.subrange(chunk_start(ends2, i) as int, ends2[i] as int),
        )
    } by {
        if i < k {
            assert(chunk_start(ends2, i) == chunk_start(ends, i));
            assert(chunks.push(c)[i] == chunks[i]);
            assert(ends2[i] == ends[i]);
            assert(chunks[i].end == ends[i]);
        } else {
            assert(chunks.push(c)[i] == c);
            assert(ends2[i] == s.len());
        }
    }
}

/// `b` starts with the chunks of `a`.
pub open spec fn extends(a: Seq<Chunk>, b: Seq<Chunk>) -> bool {
    b.len() >= a.len() && b.subrange(0, a.len() as int) == a
}

/// Cuts a stream into content-defined chunks and fingerprints each one.
pub struct Slicer<RH: RollingHasher, H: Hasher> {
    rolling_hasher: RH,
    hasher: H,
    boundary_mask: u32,
    min_chunk_size: usize,
    max_chunk_size: usize,
    current_chunk_size: usize,
    current_chunk_start: usize,
    chunks: Vec<Chunk>,
    hash_fn: Ghost<spec_fn(Seq<u8>) -> u32>,
}

impl<RH: RollingHasher, H: Hasher> Slicer<RH, H> {
    /// Every byte read so far.
    pub closed spec fn stream(&self) -> Seq<u8> {
        self.rolling_hasher.fed()
    }

    /// The rolling hash as a function of the stream read.
    pub closed spec fn hash_fn(&self) -> spec_fn(Seq<u8>) -> u32 {
        self.hash_fn@
    }

    pub closed spec fn mask(&self) -> u32 {
        self.boundary_mask
    }

    pub closed spec fn min(&self) -> nat {
        self.min_chunk_size as nat
    }

    pub closed spec fn max(&self) -> nat {
        self.max_chunk_size as nat
    }

    /// The rolling hasher.
    pub closed spec fn rolling(&self) -> RH {
        self.rolling_hasher
    }

    /// The chunks closed so far.
    pub closed spec fn closed_chunks(&self) -> Seq<Chunk> {
        self.chunks@
    }

    /// Where the open chunk starts, and how many bytes it holds.
    pub closed spec fn open_chunk(&self) -> (nat, nat) {
        (self.current_chunk_start as nat, self.current_chunk_size as nat)
    }

    /// The bytes of the open chunk that the digester holds.
    pub closed spec fn pending(&self) -> Seq<u8> {
        self.hasher.pending()
    }

    /// The offsets of all chunks if the stream ended here.
    pub open spec fn ends(&self) -> Seq<nat> {
        chunk_ends(self.hash_fn(), self.mask(), self.min(), self.max(), self.stream())
    }

    pub closed spec fn wf(&self) -> bool {
        let s = self.rolling_hasher.fed();
        let (ends, size) = cut_state(
            self.hash_fn@,
            self.boundary_mask,
            self.min_chunk_size as nat,
            self.max_chunk_size as nat,
            s,
        );
        &&& self.rolling_hasher.wf()
        &&& s.len() <= usize::MAX
        &&& forall|p: Seq<u8>| #[trigger] self.rolling_hasher.hash_of(p) == (self.hash_fn@)(p)
        &&& 1 <= self.rolling_hasher.window() <= self.min_chunk_size <= self.max_chunk_size
        &&& self.current_chunk_size == size
        &&& self.current_chunk_start + self.current_chunk_size == s.len()
        &&& self.hasher.pending() == s.subrange(self.current_chunk_start as int, s.len() as int)
        &&& chunks_match::<H>(self.chunks@, ends, s)
        &&& cut_state_inv((ends, size), self.min_chunk_size as nat, self.max_chunk_size as nat, s.len())
    }

    /// A slicer over a fresh rolling hasher and an empty digester. A boundary is declared
    /// where the rolling hash ANDed with `boundary_mask` is zero; chunks hold at least
    /// `min_chunk_size` bytes (at least the window size, so that the window never holds
    /// bytes of an earlier chunk when a boundary is tested) and at most `max_chunk_size`.
    pub fn new(
        rolling_hasher: RH,
        hasher: H,
        boundary_mask: u32,
        min_chunk_size: usize,
        max_chunk_size: usize,
    ) -> (r: Self)
        requires
            rolling_hasher.wf(),
            rolling_hasher.fed() == Seq::<u8>::empty(),
            hasher.pending() == Seq::<u8>::empty(),
            1 <= rolling_hasher.window() <= min_chunk_size,
            min_chunk_size <= max_chunk_size,
        ensures
            r.wf(),
            r.stream() == Seq::<u8>::empty(),
            r.closed_chunks() == Seq::<Chunk>::empty(),
            r.open_chunk() == (0nat, 0nat),
            r.pending() == Seq::<u8>::empty(),
            forall|p: Seq<u8>| #[trigger] (r.hash_fn())(p) == rolling_hasher.hash_of(p),
            r.mask() == boundary_mask,
            r.min() == min_chunk_size,
            r.max() == max_chunk_size,
    {
        let ghost hf = |p: Seq<u8>| rolling_hasher.hash_of(p);
        let r = Slicer {
            rolling_hasher,
            hasher,
            boundary_mask,
            min_chunk_size,
            max_chunk_size,
            current_chunk_size: 0,
            current_chunk_start: 0,
            chunks: Vec::new(),
            hash_fn: Ghost(hf),
        };
        proof {
            assert(Seq::<u8>::empty().subrange(0, 0) =~= Seq::<u8>::empty());
        }
        r
    }

    /// Reads the next bytes of the stream, closing chunks as the boundary rule says.
    pub fn process(&mut self, buffer: &[u8])
        requires
            old(self).wf(),
            old(self).stream().len() + buffer@.len() <= usize::MAX,
        ensures
            final(self).wf(),
            final(self).stream() == old(self).stream() + buffer@,
            extends(old(self).closed_chunks(), final(self).closed_chunks()),
            chunks_match::<H>(
                final(self).closed_chunks(),
                cut_state(final(self).hash_fn(), final(self).mask(), final(self).min(), final(self).max(), final(self).stream()).0,
                final(self).stream(),
            ),
            final(self).open_chunk() == (
                (final(self).stream().len() - cut_state(final(self).hash_fn(), final(self).mask(), final(self).min(), final(self).max(), final(self).stream()).1) as nat,
                cut_state(final(self).hash_fn(), final(self).mask(), final(self).min(), final(self).max(), final(self).stream()).1,
            ),
            final(self).hash_fn() == old(self).hash_fn(),
            final(self).mask() == old(self).mask(),
            final(self).min() == old(self).min(),
            final(self).max() == old(self).max(),
    {
        let ghost s0 = self.stream();
        proof {
            assert(self.chunks@.subrange(0, self.chunks@.len() as int) =~= self.chunks@);
        }
        let n = buffer.len();
        let mut i: usize = 0;
        while i < n
            invariant
                self.wf(),
                n == buffer@.len(),
                i <= n,
                s0.len() + n <= usize::MAX,
                self.stream() == s0 + buffer@.subrange(0, i as int),
                extends(old(self).chunks@, self.chunks@),
                self.hash_fn() == old(self).hash_fn(),
                self.mask() == old(self).mask(),
                self.min() == old(self).min(),
                self.max() == old(self).max(),
            decreases n - i,
        {
            let byte = buffer[i];
            let ghost c0 = self.chunks@;
            self.step(byte);
            proof {
                assert(self.chunks@.subrange(0, old(self).chunks@.len() as int) =~= c0.subrange(0, old(self).chunks@.len() as int));
                assert(s0 + buffer@.subrange(0, i + 1) =~= (s0 + buffer@.subrange(0, i as int)).push(
                    byte,
                ));
            }
            i = i + 1;
        }
        proof {
            assert(buffer@.subrange(0, n as int) =~= buffer@);
        }
    }

    /// Reads one byte.
    #[verifier::spinoff_prover]
    #[verifier::rlimit(60)]
    fn step(&mut self, byte: u8)
        requires
            old(self).wf(),
            old(self).stream().len() < usize::MAX,
        ensures
            final(self).wf(),
            final(self).stream() == old(self).stream().push(byte),
            extends(old(self).chunks@, final(self).chunks@),
            final(self).hash_fn() == old(self).hash_fn(),
            final(self).mask() == old(self).mask(),
            final(self).min() == old(self).min(),
            final(self).max() == old(self).max(),
    {
        let ghost s = self.stream();
        let rolling_hash = self.rolling_hasher.push(byte);
        if (self.current_chunk_size >= self.min_chunk_size && (rolling_hash & self.boundary_mask)
            == 0) || self.current_chunk_size == self.max_chunk_size {
            self.close_chunk();
        }
        self.hasher.push(byte);
        self.current_chunk_size = self.current_chunk_size + 1;
        proof {
            let s2 = s.push(byte);
            let hf = self.hash_fn@;
            let mask = self.boundary_mask;
            let min = self.min_chunk_size as nat;
            let max = self.max_chunk_size as nat;
            assert(s2.drop_last() =~= s);
            assert(hf(s2) == rolling_hash);
            let (ends, size) = cut_state(hf, mask, min, max, s);
            if self.chunks@.len() > old(self).chunks@.len() {
                lemma_chunks_close::<H>(old(self).chunks@, ends, s, self.chunks@.last());
                assert(self.chunks@ == old(self).chunks@.push(self.chunks@.last()));
                lemma_chunks_extend::<H>(self.chunks@, ends.push(s.len()), s, byte);
            } else {
                lemma_chunks_extend::<H>(self.chunks@, ends, s, byte);
            }
            assert(self.hasher.pending() =~= s2.subrange(
                self.current_chunk_start as int,
                s2.len() as int,
            ));
            lemma_cut_state_inv(hf, mask, min, max, s2);
            assert(self.chunks@.subrange(0, old(self).chunks@.len() as int) =~= old(self).chunks@);
        }
    }

    /// Closes the open chunk where it stands: its digest and end offset join the chunk list,
    /// and an empty chunk opens after it. Out of turn, this cuts the stream where the
    /// boundary rule would not.
    pub fn add_chunk(&mut self)
        requires
            old(self).open_chunk().0 + old(self).open_chunk().1 <= usize::MAX,
        ensures
            final(self).rolling() == old(self).rolling(),
            final(self).stream() == old(self).stream(),
            final(self).hash_fn() == old(self).hash_fn(),
            final(self).mask() == old(self).mask(),
            final(self).min() == old(self).min(),
            final(self).max() == old(self).max(),
            final(self).open_chunk() == (old(self).open_chunk().0 + old(self).open_chunk().1, 0nat),
            final(self).pending() == Seq::<u8>::empty(),
            final(self).closed_chunks() == old(self).closed_chunks().push(
                Chunk {
                    hash: final(self).closed_chunks().last().hash,
                    end: final(self).open_chunk().0 as usize,
                },
            ),
            final(self).closed_chunks().last().hash@ == H::digest_of(old(self).pending()),
    {
        self.close_chunk();
    }

    /// Closes the open chunk at the current offset.
    fn close_chunk(&mut self)
        requires
            old(self).current_chunk_start + old(self).current_chunk_size <= usize::MAX,
        ensures
            final(self).rolling_hasher == old(self).rolling_hasher,
            final(self).hash_fn == old(self).hash_fn,
            final(self).boundary_mask == old(self).boundary_mask,
            final(self).min_chunk_size == old(self).min_chunk_size,
            final(self).max_chunk_size == old(self).max_chunk_size,
            final(self).current_chunk_size == 0,
            final(self).current_chunk_start == old(self).current_chunk_start + old(self).current_chunk_size,
            final(self).hasher.pending() == Seq::<u8>::empty(),
            final(self).chunks@ == old(self).chunks@.push(
                Chunk { hash: final(self).chunks@.last().hash, end: final(self).current_chunk_start },
            ),
            final(self).chunks@.last().hash@ == H::digest_of(old(self).hasher.pending()),
    {
        let hash = self.hasher.finalize();
        let chunk_end = self.current_chunk_start + self.current_chunk_size;
        let chunk = Chunk { hash, end: chunk_end };
        self.chunks.push(chunk);
        self.current_chunk_start = chunk_end;
        self.current_chunk_size = 0;
    }

    /// Closes the trailing chunk, which is empty only if the whole stream was, and hands
    /// out the chunks of the stream in order.
    pub fn finalize(self) -> (r: Vec<Chunk>)
        requires
            self.wf(),
        ensures
            chunks_match::<H>(r@, self.ends(), self.stream()),
    {
        let mut this = self;
        let ghost s = this.stream();
        let ghost old_chunks = this.chunks@;
        this.close_chunk();
        proof {
            let (ends, size) = cut_state(
                this.hash_fn@,
                this.boundary_mask,
                this.min_chunk_size as nat,
                this.max_chunk_size as nat,
                s,
            );
            assert(this.chunks@ == old_chunks.push(this.chunks@.last()));
            lemma_chunks_close::<H>(old_chunks, ends, s, this.chunks@.last());
        }
        this.chunks
    }
}

} // verus!
