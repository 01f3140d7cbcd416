use vstd::prelude::*;

verus! {

/// The last `w` bytes of `s`, with zero bytes in front where `s` is shorter than `w`:
/// the content of a window of size `w` that starts out zero-filled once `s` has passed
/// through it.
pub open spec fn window_of(s: Seq<u8>, w: nat) -> Seq<u8> {
    let padded = Seq::new(w, |_i| 0u8) + s;
    padded.subrange(padded.len() - w, padded.len() as int)
}

/// Pushing a byte drops the oldest byte of the window and appends the new one.
pub proof fn lemma_window_push(s: Seq<u8>, w: nat, b: u8)
    requires
        w >= 1,
    ensures
        window_of(s.push(b), w) == window_of(s, w).drop_first().push(b),
        window_of(s, w).len() == w,
{
    let padded = Seq::new(w, |_i| 0u8) + s;
    assert(Seq::new(w, |_i| 0u8) + s.push(b) =~= padded.push(b));
    assert(window_of(s.push(b), w) =~= window_of(s, w).drop_first().push(b));
}

/// Before any byte the window holds zeros.
pub proof fn lemma_window_empty(w: nat)
    ensures
        window_of(Seq::empty(), w) == Seq::new(w, |_i| 0u8),
{
    assert(window_of(Seq::empty(), w) =~= Seq::new(w, |_i| 0u8));
}

/// A hash over a sliding window of the last `window()` bytes pushed, updated in constant
/// time per byte.
pub trait RollingHasher: Sized {
    /// The internal state agrees with the model below.
    spec fn wf(&self) -> bool;

    /// The window size.
    spec fn window(&self) -> nat;

    /// Every byte pushed so far, in order.
    spec fn fed(&self) -> Seq<u8>;

    /// The hash this hasher reports once the stream `s` has been pushed into it from its
    /// construction on.
    spec fn hash_of(&self, s: Seq<u8>) -> u32;

    /// Pushes one byte and returns the hash of the window that now ends with it.
    fn push(&mut self, byte: u8) -> (h: u32)
        requires
            old(self).wf(),
        ensures
            final(self).wf(),
            final(self).window() == old(self).window(),
            final(self).fed() == old(self).fed().push(byte),
            forall|s: Seq<u8>| #[trigger] final(self).hash_of(s) == old(self).hash_of(s),
            h == old(self).hash_of(final(self).fed()),
    ;

    fn get_window_size(&self) -> (r: usize)
        requires
            self.wf(),
        ensures
            r == self.window(),
    ;
}

/// `x < w` keeps all its bits under a power-of-two mask `w - 1`, and `w` itself keeps none.
pub proof fn lemma_pow2_mask(x: u32, w: u32)
    requires
        crate::helper::is_pow2(w as nat),
        x <= w,
    ensures
        (x & ((w - 1) as u32)) == (if x == w { 0 } else { x }),
{
    let k = lemma_pow2_shift(w);
    assert(k < 32 && w == (1u32 << k) && x <= w ==> (x & ((w - 1) as u32)) == (if x == w {
        0
    } else {
        x
    })) by (bit_vector);
}

proof fn lemma_pow2_shift(w: u32) -> (k: u32)
    requires
        crate::helper::is_pow2(w as nat),
    ensures
        k < 32,
        w == (1u32 << k),
    decreases w,
{
    if w == 1 {
        assert(1u32 == (1u32 << 0u32)) by (bit_vector);
        0
    } else {
        let h = (w / 2) as u32;
        let k = lemma_pow2_shift(h);
        assert(k < 32 && h == (1u32 << k) && w == 2 * h ==> k < 31 && w == (1u32 << ((k + 1) as u32)))
            by (bit_vector);
        (k + 1) as u32
    }
}

} // verus!
