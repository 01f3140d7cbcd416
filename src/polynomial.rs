use crate::helper::{is_pow2, mod_power};
use crate::rolling_hasher::{lemma_pow2_mask, lemma_window_empty, lemma_window_push, window_of, RollingHasher};
use vstd::arithmetic::div_mod::*;
use vstd::arithmetic::mul::*;
use vstd::arithmetic::power::*;
use vstd::prelude::*;

verus! {

/// The modulus used when none is given: a large prime.
pub const DEFAULT_MODULUS: u32 = 1_000_000_007;

/// The base used when none is given; it lies below the default modulus.
pub const DEFAULT_BASE: u32 = 29_791;

/// `x` read as the digits of a number in base `b`, most significant first:
/// `x[0] * b^(n-1) + x[1] * b^(n-2) + ... + x[n-1]`.
pub open spec fn poly(x: Seq<u8>, b: int) -> int
    decreases x.len(),
{
    if x.len() == 0 {
        0
    } else {
        poly(x.drop_last(), b) * b + x.last()
    }
}

/// The polynomial (Rabin-Karp) hash of the last `w` bytes of `s`, modulo `m`, in base `b`.
pub open spec fn polynomial_hash(s: Seq<u8>, w: nat, m: nat, b: nat) -> u32 {
    (poly(window_of(s, w), b as int) % (m as int)) as u32
}

proof fn lemma_poly_drop_first(x: Seq<u8>, b: int)
    requires
        x.len() >= 1,
    ensures
        poly(x, b) == x[0] * pow(b, (x.len() - 1) as nat) + poly(x.drop_first(), b),
    decreases x.len(),
{
    reveal(pow);
    if x.len() == 1 {
        assert(x.drop_last() =~= Seq::<u8>::empty());
        assert(x.drop_first() =~= Seq::<u8>::empty());
    } else {
        let y = x.drop_last();
        lemma_poly_drop_first(y, b);
        assert(y.drop_first() =~= x.drop_first().drop_last());
        assert(x.drop_first().last() == x.last());
        assert(y[0] == x[0]);
        let p = pow(b, (y.len() - 1) as nat);
        assert(pow(b, (x.len() - 1) as nat) == b * p);
        let q = poly(y.drop_first(), b);
        assert(poly(x.drop_first(), b) == q * b + x.last());
        assert(poly(x, b) == (x[0] * p + q) * b + x.last());
        assert((x[0] * p + q) * b + x.last() == x[0] * (b * p) + (q * b + x.last()))
            by (nonlinear_arith);
    }
}

proof fn lemma_poly_zeros(w: nat, b: int)
    ensures
        poly(Seq::new(w, |_i| 0u8), b) == 0,
    decreases w,
{
    if w > 0 {
        assert(Seq::new(w, |_i| 0u8).drop_last() =~= Seq::new((w - 1) as nat, |_i| 0u8));
        lemma_poly_zeros((w - 1) as nat, b);
    }
}

/// `((a mod m) + m - (c mod m)) mod m == (a - c) mod m`.
proof fn lemma_sub_mod(a: int, c: int, m: int)
    requires
        m > 0,
    ensures
        ((a % m) + m - (c % m)) % m == (a - c) % m,
{
    lemma_fundamental_div_mod(a, m);
    lemma_fundamental_div_mod(c, m);
    let k = c / m - a / m + 1;
    assert((a % m) + m - (c % m) == m * k + (a - c)) by (nonlinear_arith)
        requires
            a == m * (a / m) + a % m,
            c == m * (c / m) + c % m,
            k == c / m - a / m + 1,
    ;
    lemma_mod_multiples_vanish(k, a - c, m);
}

/// Polynomial rolling hash over a circular window buffer; see `polynomial_hash`.
pub struct PolynomialRollingHasher {
    modulus: u64,
    base: u64,
    rolling_hash: u64,
    buffer: Vec<u8>,
    buffer_tap: u32,
    buffer_mask: u32,
    max_pow: u64,
    fed: Ghost<Seq<u8>>,
}

impl PolynomialRollingHasher {
    pub closed spec fn modulus(&self) -> nat {
        self.modulus as nat
    }

    pub closed spec fn base(&self) -> nat {
        self.base as nat
    }

    /// The window, oldest byte first.
    closed spec fn window_seq(&self) -> Seq<u8> {
        self.buffer@.subrange(self.buffer_tap as int, self.buffer@.len() as int)
            + self.buffer@.subrange(0, self.buffer_tap as int)
    }

    /// A hasher with window size `window_size`, which must be a power of two, and the given
    /// modulus and base (or the defaults).
    pub fn new(window_size: u32, modulus: Option<u32>, base: Option<u32>) -> (r: Self)
        requires
            window_size != 0,
            is_pow2(window_size as nat),
            modulus != Some(0u32),
        ensures
            r.wf(),
            r.window() == window_size,
            r.fed() == Seq::<u8>::empty(),
            r.modulus() == (match modulus {
                Some(m) => m,
                None => DEFAULT_MODULUS,
            }),
            r.base() == (match base {
                Some(b) => b,
                None => DEFAULT_BASE,
            }),
    {
        let modulus = match modulus {
            Some(m) => m,
            None => DEFAULT_MODULUS,
        };
        let base = match base {
            Some(b) => b,
            None => DEFAULT_BASE,
        };
        let max_pow = mod_power(base, window_size - 1, modulus);
        let buffer: Vec<u8> = vec![0u8; window_size as usize];
        proof {
            lemma_window_empty(window_size as nat);
            assert(buffer@ =~= Seq::new(window_size as nat, |_i| 0u8));
            lemma_poly_zeros(window_size as nat, base as int);
            assert(buffer@.subrange(0, window_size as int) + buffer@.subrange(0, 0) =~= buffer@);
        }
        let r = PolynomialRollingHasher {
            modulus: modulus as u64,
            base: base as u64,
            rolling_hash: 0,
            buffer,
            buffer_tap: 0,
            buffer_mask: window_size - 1,
            max_pow: max_pow as u64,
            fed: Ghost(Seq::empty()),
        };
        proof {
            assert(r.window_seq() =~= r.buffer@);
            lemma_small_mod(0, modulus as nat);
        }
        r
    }
}

impl RollingHasher for PolynomialRollingHasher {
    closed spec fn wf(&self) -> bool {
        &&& 1 <= self.buffer@.len() <= u32::MAX
        &&& is_pow2(self.buffer@.len())
        &&& self.buffer_mask == self.buffer@.len() - 1
        &&& self.buffer_tap < self.buffer@.len()
        &&& 0 < self.modulus <= u32::MAX
        &&& self.base <= u32::MAX
        &&& self.rolling_hash < self.modulus
        &&& self.max_pow == pow(self.base as int, (self.buffer@.len() - 1) as nat) % (
        self.modulus as int)
        &&& self.window_seq() == window_of(self.fed@, self.buffer@.len())
        &&& self.rolling_hash == poly(self.window_seq(), self.base as int) % (self.modulus as int)
    }

    closed spec fn window(&self) -> nat {
        self.buffer@.len()
    }

    closed spec fn fed(&self) -> Seq<u8> {
        self.fed@
    }

    open spec fn hash_of(&self, s: Seq<u8>) -> u32 {
        polynomial_hash(s, self.window(), self.modulus(), self.base())
    }

    fn push(&mut self, byte: u8) -> (h: u32) {
        let ghost w = self.window_seq();
        let ghost wlen = self.buffer@.len();
        let ghost m = self.modulus as int;
        let ghost b = self.base as int;
        let tap = self.buffer_tap;
        let entering = byte as u64;
        let oldest = self.buffer[tap as usize];
        proof {
            lemma_mul_upper_bound(oldest as int, 255, self.max_pow as int, u32::MAX as int);
        }
        let exiting = (oldest as u64 * self.max_pow) % self.modulus;
        let t = (self.rolling_hash + self.modulus - exiting) % self.modulus;
        proof {
            lemma_mul_upper_bound(t as int, u32::MAX as int, self.base as int, u32::MAX as int);
        }
        self.rolling_hash = (t * self.base + entering) % self.modulus;
        self.buffer.set(tap as usize, byte);
        proof {
            lemma_pow2_mask((tap + 1) as u32, (self.buffer_mask + 1) as u32);
        }
        self.buffer_tap = (tap + 1) & self.buffer_mask;
        self.fed = Ghost(self.fed@.push(byte));
        proof {
            let rest = w.drop_first();
            assert(w[0] == oldest);
            lemma_window_push(old(self).fed@, wlen, byte);
            // the circular buffer now reads as the window shifted by one byte
            if tap + 1 < wlen {
                assert(self.window_seq() =~= rest.push(byte));
            } else {
                assert(self.window_seq() =~= rest.push(byte));
            }
            // arithmetic: drop the oldest byte's term, shift, add the new byte
            let p = pow(b, (wlen - 1) as nat);
            lemma_poly_drop_first(w, b);
            lemma_mul_mod_noop_right(oldest as int, p, m);
            lemma_sub_mod(poly(w, b), oldest * p, m);
            assert(t == poly(rest, b) % m);
            assert(rest.push(byte).drop_last() =~= rest);
            lemma_mul_mod_noop_left(poly(rest, b), b, m);
            lemma_add_mod_noop(poly(rest, b) * b, entering as int, m);
            lemma_add_mod_noop((poly(rest, b) % m) * b, entering as int, m);
        }
        self.rolling_hash as u32
    }

    fn get_window_size(&self) -> (r: usize) {
        self.buffer.len()
    }
}

} // verus!
