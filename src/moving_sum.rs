use crate::helper::is_pow2;
use crate::rolling_hasher::{
    lemma_pow2_mask, lemma_window_empty, lemma_window_push, window_of, RollingHasher,
};
use vstd::arithmetic::div_mod::*;
use vstd::prelude::*;

verus! {

/// The sum of the bytes of `x`.
pub open spec fn byte_sum(x: Seq<u8>) -> int
    decreases x.len(),
{
    if x.len() == 0 {
        0
    } else {
        byte_sum(x.drop_last()) + x.last()
    }
}

/// The moving-sum hash of the last `w` bytes of `s`: their sum modulo `2^32`.
pub open spec fn moving_sum_hash(s: Seq<u8>, w: nat) -> u32 {
    (byte_sum(window_of(s, w)) % 0x1_0000_0000) as u32
}

proof fn lemma_sum_drop_first(x: Seq<u8>)
    requires
        x.len() >= 1,
    ensures
        byte_sum(x) == x[0] + byte_sum(x.drop_first()),
    decreases x.len(),
{
    if x.len() == 1 {
        assert(x.drop_last() =~= Seq::<u8>::empty());
        assert(x.drop_first() =~= Seq::<u8>::empty());
    } else {
        lemma_sum_drop_first(x.drop_last());
        assert(x.drop_last().drop_first() =~= x.drop_first().drop_last());
    }
}

proof fn lemma_sum_zeros(w: nat)
    ensures
        byte_sum(Seq::new(w, |_i| 0u8)) == 0,
    decreases w,
{
    if w > 0 {
        assert(Seq::new(w, |_i| 0u8).drop_last() =~= Seq::new((w - 1) as nat, |_i| 0u8));
        lemma_sum_zeros((w - 1) as nat);
    }
}

/// Moving-sum rolling hash over a circular window buffer; see `moving_sum_hash`.
pub struct MovingSumRollingHasher {
    rolling_hash: u32,
    buffer: Vec<u8>,
    buffer_tap: u32,
    buffer_mask: u32,
    fed: Ghost<Seq<u8>>,
}

impl MovingSumRollingHasher {
    /// The window, oldest byte first.
    closed spec fn window_seq(&self) -> Seq<u8> {
        self.buffer@.subrange(self.buffer_tap as int, self.buffer@.len() as int)
            + self.buffer@.subrange(0, self.buffer_tap as int)
    }

    /// A hasher with window size `window_size`, which must be a power of two.
    pub fn new(window_size: u32) -> (r: Self)
        requires
            window_size != 0,
            is_pow2(window_size as nat),
        ensures
            r.wf(),
            r.window() == window_size,
            r.fed() == Seq::<u8>::empty(),
    {
        let buffer: Vec<u8> = vec![0u8; window_size as usize];
        let r = MovingSumRollingHasher {
            rolling_hash: 0,
            buffer,
            buffer_tap: 0,
            buffer_mask: window_size - 1,
            fed: Ghost(Seq::empty()),
        };
        proof {
            lemma_window_empty(window_size as nat);
            assert(r.window_seq() =~= Seq::new(window_size as nat, |_i| 0u8));
            lemma_sum_zeros(window_size as nat);
        }
        r
    }
}

impl RollingHasher for MovingSumRollingHasher {
    closed spec fn wf(&self) -> bool {
        &&& 1 <= self.buffer@.len() <= u32::MAX
        &&& is_pow2(self.buffer@.len())
        &&& self.buffer_mask == self.buffer@.len() - 1
        &&& self.buffer_tap < self.buffer@.len()
        &&& self.window_seq() == window_of(self.fed@, self.buffer@.len())
        &&& self.rolling_hash == byte_sum(self.window_seq()) % 0x1_0000_0000
    }

    closed spec fn window(&self) -> nat {
        self.buffer@.len()
    }

    closed spec fn fed(&self) -> Seq<u8> {
        self.fed@
    }

    open spec fn hash_of(&self, s: Seq<u8>) -> u32 {
        moving_sum_hash(s, self.window())
    }

    fn push(&mut self, byte: u8) -> (h: u32) {
        let ghost w = self.window_seq();
        let ghost wlen = self.buffer@.len();
        let tap = self.buffer_tap;
        let entering = byte as u32;
        let exiting = self.buffer[tap as usize] as u32;
        let ghost h0 = self.rolling_hash;
        self.rolling_hash = self.rolling_hash.wrapping_add(entering).wrapping_sub(exiting);
        self.buffer.set(tap as usize, byte);
        proof {
            lemma_pow2_mask((tap + 1) as u32, (self.buffer_mask + 1) as u32);
        }
        self.buffer_tap = (tap + 1) & self.buffer_mask;
        self.fed = Ghost(self.fed@.push(byte));
        proof {
            let rest = w.drop_first();
            lemma_window_push(old(self).fed@, wlen, byte);
            assert(self.window_seq() =~= rest.push(byte));
            lemma_sum_drop_first(w);
            assert(rest.push(byte).drop_last() =~= rest);
            let r: int = 0x1_0000_0000;
            assert(self.rolling_hash == (h0 + entering - exiting) % r);
            lemma_add_mod_noop(byte_sum(w), entering - exiting, r);
            lemma_add_mod_noop(h0 as int, entering - exiting, r);
            lemma_mod_twice(byte_sum(w), r);
        }
        self.rolling_hash
    }

    fn get_window_size(&self) -> (r: usize) {
        self.buffer.len()
    }
}

} // verus!
