use crate::delta::is_subseq;
use vstd::arithmetic::mul::*;
use vstd::prelude::*;

verus! {

/// An item of the sequences compared: compared by value, and copied into the result.
pub trait Symbol: Sized {
    /// The value the item is compared by.
    spec fn key(&self) -> Seq<u8>;

    fn same(&self, other: &Self) -> (r: bool)
        ensures
            r == (self.key() == other.key()),
    ;

    fn duplicate(&self) -> (r: Self)
        ensures
            r.key() == self.key(),
    ;
}

impl Symbol for u8 {
    open spec fn key(&self) -> Seq<u8> {
        seq![*self]
    }

    fn same(&self, other: &Self) -> (r: bool) {
        proof {
            if seq![*self] == seq![*other] {
                assert(seq![*self][0] == seq![*other][0]);
            }
        }
        *self == *other
    }

    fn duplicate(&self) -> (r: Self) {
        *self
    }
}

impl Symbol for Vec<u8> {
    open spec fn key(&self) -> Seq<u8> {
        self@
    }

    fn same(&self, other: &Self) -> (r: bool) {
        let r = *self == *other;
        proof {
            if r {
                assert(self@ =~= other@);
            }
        }
        r
    }

    fn duplicate(&self) -> (r: Self) {
        let mut r: Vec<u8> = Vec::with_capacity(self.len());
        let mut i: usize = 0;
        while i < self.len()
            invariant
                i <= self.len(),
                r@ == self@.subrange(0, i as int),
            decreases self.len() - i,
        {
            r.push(self[i]);
            proof {
                assert(self@.subrange(0, i + 1) =~= self@.subrange(0, i as int).push(self[i as int]));
            }
            i = i + 1;
        }
        proof {
            assert(self@.subrange(0, self.len() as int) =~= self@);
        }
        r
    }
}

/// The keys of a sequence of symbols.
pub open spec fn keys<T: Symbol>(s: Seq<T>) -> Seq<Seq<u8>> {
    s.map_values(|x: T| x.key())
}

/// `pos` picks, in strictly increasing order, elements of `b` whose keys spell out `a`.
pub open spec fn embeds<A>(a: Seq<A>, b: Seq<A>, pos: Seq<int>) -> bool {
    &&& pos.len() == a.len()
    &&& forall|t: int| 0 <= t < pos.len() ==> 0 <= #[trigger] pos[t] < b.len() && b[pos[t]] == a[t]
    &&& forall|t: int, u: int| 0 <= t < u < pos.len() ==> pos[t] < pos[u]
}

/// Any embedding shows a subsequence.
pub proof fn lemma_embeds_subseq<A>(a: Seq<A>, b: Seq<A>, pos: Seq<int>)
    requires
        embeds(a, b, pos),
    ensures
        is_subseq(a, b),
    decreases b.len(),
{
    if a.len() > 0 {
        assert(pos[0] >= 0);
        if a[0] == b[0] {
            let pos2 = pos.drop_first().map_values(|x: int| x - 1);
            assert forall|t: int| 0 <= t < pos2.len() implies 0 <= #[trigger] pos2[t] < b.drop_first().len()
                && b.drop_first()[pos2[t]] == a.drop_first()[t] by {
                assert(pos[0] < pos[t + 1]);
            }
            assert forall|t: int, u: int| 0 <= t < u < pos2.len() implies pos2[t] < pos2[u] by {
                assert(pos[t + 1] < pos[u + 1]);
            }
            lemma_embeds_subseq(a.drop_first(), b.drop_first(), pos2);
        } else {
            let pos2 = pos.map_values(|x: int| x - 1);
            assert forall|t: int| 0 <= t < pos2.len() implies 0 <= #[trigger] pos2[t] < b.drop_first().len()
                && b.drop_first()[pos2[t]] == a[t] by {
                if t > 0 {
                    assert(pos[0] < pos[t]);
                } else {
                    assert(pos[0] != 0);
                }
            }
            assert forall|t: int, u: int| 0 <= t < u < pos2.len() implies pos2[t] < pos2[u] by {
                assert(pos[t] < pos[u]);
            }
            lemma_embeds_subseq(a, b.drop_first(), pos2);
        }
    }
}

/// The entry in row `r`, column `c` of a matrix of width `w` stored row by row.
pub open spec fn at(l: Seq<usize>, w: int, r: int, c: int) -> int {
    l[r * w + c] as int
}

/// Row `r`, column `c` of the matrix stands for `L_{c+1}(r+1)` of Nakatsu's algorithm: the
/// largest `h` such that `sigma[c..]` and `tau[h-1..]` have a common subsequence of length
/// `r + 1`, or 0. What the trace-back relies on: a nonzero entry either repeats its right
/// neighbour or is a match `tau[h-1] == sigma[c]` that lies above its right neighbour and
/// below the entry up and to the right.
pub open spec fn cell_ok<T: Symbol>(
    l: Seq<usize>,
    w: int,
    r: int,
    c: int,
    sigma: Seq<T>,
    tau: Seq<T>,
) -> bool {
    let v = at(l, w, r, c);
    v != 0 ==> (v == at(l, w, r, c + 1) || (tau[v - 1].key() == sigma[c].key() && at(l, w, r, c + 1)
        < v && (r >= 1 ==> v < at(l, w, r - 1, c + 1))))
}

/// The matrix of side `m + 1` holds entries up to `n`, zeros on and below the anti-diagonal
/// `r + c == m`, and only entries that the trace-back can rely on.
pub open spec fn matrix_ok<T: Symbol>(l: Seq<usize>, m: int, n: int, sigma: Seq<T>, tau: Seq<T>) -> bool {
    let w = m + 1;
    &&& l.len() == w * w
    &&& forall|r: int, c: int| 0 <= r <= m && 0 <= c <= m ==> #[trigger] at(l, w, r, c) <= n
    &&& forall|r: int, c: int| 0 <= r <= m && 0 <= c <= m && r + c >= m ==> #[trigger] at(l, w, r, c) == 0
    &&& forall|r: int, c: int| 0 <= r <= m && 0 <= c < m ==> #[trigger] cell_ok(l, w, r, c, sigma, tau)
}

proof fn lemma_index(w: int, r: int, c: int)
    requires
        0 <= r < w,
        0 <= c < w,
    ensures
        0 <= r * w + c < w * w,
        r * w + c + 1 == r * w + (c + 1),
        r >= 1 ==> (r - 1) * w + (c + 1) == r * w + c - (w - 1),
        (r + 1) * w + c == r * w + c + w,
{
    assert(0 <= r * w + c < w * w) by (nonlinear_arith)
        requires
            0 <= r < w,
            0 <= c < w,
    ;
    assert((r - 1) * w == r * w - w) by (nonlinear_arith);
    assert((r + 1) * w == r * w + w) by (nonlinear_arith);
}

proof fn lemma_index_unique(w: int, r: int, c: int, r2: int, c2: int)
    requires
        0 <= c < w,
        0 <= c2 < w,
        r * w + c == r2 * w + c2,
    ensures
        r == r2,
        c == c2,
{
    assert((r - r2) * w == c2 - c) by (nonlinear_arith)
        requires
            r * w + c == r2 * w + c2,
    ;
    if r > r2 {
        assert((r - r2) * w >= w) by (nonlinear_arith)
            requires
                r - r2 >= 1,
                w > 0,
        ;
    } else if r < r2 {
        assert((r2 - r) * w >= w) by (nonlinear_arith)
            requires
                r2 - r >= 1,
                w > 0,
        ;
        assert((r - r2) * w == -((r2 - r) * w)) by (nonlinear_arith);
    }
}

/// Writing one entry changes that entry only.
proof fn lemma_write(l: Seq<usize>, w: int, r: int, c: int, v: usize)
    requires
        l.len() == w * w,
        0 <= r < w,
        0 <= c < w,
    ensures
        at(l.update(r * w + c, v), w, r, c) == v,
        forall|r2: int, c2: int|
            0 <= r2 < w && 0 <= c2 < w && (r2 != r || c2 != c) ==> #[trigger] at(
                l.update(r * w + c, v),
                w,
                r2,
                c2,
            ) == at(l, w, r2, c2),
{
    lemma_index(w, r, c);
    assert forall|r2: int, c2: int|
        0 <= r2 < w && 0 <= c2 < w && (r2 != r || c2 != c) implies #[trigger] at(
        l.update(r * w + c, v),
        w,
        r2,
        c2,
    ) == at(l, w, r2, c2) by {
        lemma_index(w, r2, c2);
        if r2 * w + c2 == r * w + c {
            lemma_index_unique(w, r, c, r2, c2);
        }
    }
}

/// Entry `(r, c)` is at least every `h` for which `sigma[c..]` and `tau[h - 1..]` (keys `sk`
/// and `tk`) share `r + 1` items: it is no smaller than `L_{c+1}(r+1)`.
pub open spec fn complete_at(l: Seq<usize>, w: int, r: int, c: int, sk: Seq<Seq<u8>>, tk: Seq<Seq<u8>>) -> bool {
    forall|h: int|
        1 <= h <= tk.len() && #[trigger] suffix_lcs(sk, tk, c, h - 1) >= r + 1 ==> at(l, w, r, c) >= h
}

/// Fills entry `(r, c)`: the rightmost position `h` below `upper_bound` and above the entry
/// to its right at which `tau[h - 1]` matches `sigma[c]`, or that entry where none does.
fn fill_cell<T: Symbol>(
    l: &mut Vec<usize>,
    m_string: &[T],
    n_string: &[T],
    w: usize,
    r: usize,
    c: usize,
    upper_bound: usize,
) -> (found: usize)
    requires
        w == m_string@.len() + 1,
        m_string@.len() <= n_string@.len() < usize::MAX,
        old(l)@.len() == w * w <= usize::MAX,
        matrix_ok(old(l)@, m_string@.len() as int, n_string@.len() as int, m_string@, n_string@),
        r + c < m_string@.len(),
        at(old(l)@, w as int, r as int, c as int) == 0,
        c >= 1 ==> at(old(l)@, w as int, r as int, c - 1) == 0,
        c >= 1 && r + 1 <= m_string@.len() ==> at(old(l)@, w as int, r + 1, c - 1) == 0,
        r >= 1 ==> upper_bound == at(old(l)@, w as int, r - 1, c + 1) && upper_bound != 0,
        r == 0 ==> upper_bound == n_string@.len() + 1,
    ensures
        final(l)@ == old(l)@.update(r * w + c, found),
        matrix_ok(final(l)@, m_string@.len() as int, n_string@.len() as int, m_string@, n_string@),
        found >= at(old(l)@, w as int, r as int, c + 1),
        found == at(old(l)@, w as int, r as int, c + 1) || (at(old(l)@, w as int, r as int, c + 1)
            < found < upper_bound && n_string@[found - 1].key() == m_string@[c as int].key()),
        forall|hh: int|
            at(old(l)@, w as int, r as int, c + 1) < hh < upper_bound && #[trigger] n_string@[hh - 1].key()
                == m_string@[c as int].key() ==> hh <= found,
{
    let ghost m = m_string@.len() as int;
    let ghost n = n_string@.len() as int;
    let ghost sigma = m_string@;
    let ghost tau = n_string@;
    proof {
        lemma_index(w as int, r as int, c as int);
        lemma_index(w as int, r as int, c + 1);
    }
    let index = r * w + c;
    let lower_bound = l[index + 1];
    proof {
        assert(lower_bound == at(l@, w as int, r as int, c + 1));
    }
    // the rightmost match of sigma[c] in the range
    let mut h = upper_bound;
    let mut found = lower_bound;
    while found == lower_bound && h > lower_bound + 1
        invariant
            h <= upper_bound <= n + 1,
            lower_bound <= n,
            n == n_string@.len() < usize::MAX,
            c < m == m_string@.len(),
            found == lower_bound ==> forall|hh: int|
                h <= hh < upper_bound ==> #[trigger] n_string@[hh - 1].key() != m_string@[c as int].key(),
            found != lower_bound ==> found == h && lower_bound < found < upper_bound
                && n_string@[found - 1].key() == m_string@[c as int].key() && forall|hh: int|
                h < hh < upper_bound ==> #[trigger] n_string@[hh - 1].key() != m_string@[c as int].key(),
        decreases h,
    {
        h = h - 1;
        if n_string[h - 1].same(&m_string[c]) {
            found = h;
        }
    }
    let ghost l0 = l@;
    l.set(index, found);
    proof {
        lemma_write(l0, w as int, r as int, c as int, found);
        let wi = w as int;
        assert forall|r2: int, c2: int| 0 <= r2 <= m && 0 <= c2 < m implies #[trigger] cell_ok(
            l@,
            wi,
            r2,
            c2,
            sigma,
            tau,
        ) by {
            assert(cell_ok(l0, wi, r2, c2, sigma, tau));
            if r2 == r && c2 == c {
            } else if (r2 == r && c2 + 1 == c) || (r2 == r + 1 && c2 + 1 == c) {
                assert(at(l@, wi, r2, c2) == at(l0, wi, r2, c2));
            } else {
                assert(at(l@, wi, r2, c2) == at(l0, wi, r2, c2));
                assert(at(l@, wi, r2, c2 + 1) == at(l0, wi, r2, c2 + 1));
                if r2 >= 1 {
                    assert(at(l@, wi, r2 - 1, c2 + 1) == at(l0, wi, r2 - 1, c2 + 1));
                }
            }
        }
        assert forall|r2: int, c2: int| 0 <= r2 <= m && 0 <= c2 <= m implies #[trigger] at(l@, wi, r2, c2)
            <= n by {
            if r2 != r || c2 != c {
                assert(at(l@, wi, r2, c2) == at(l0, wi, r2, c2));
            }
        }
        assert forall|r2: int, c2: int| 0 <= r2 <= m && 0 <= c2 <= m && r2 + c2 >= m implies #[trigger] at(
            l@,
            wi,
            r2,
            c2,
        ) == 0 by {
            assert(at(l@, wi, r2, c2) == at(l0, wi, r2, c2));
        }
    }
    found
}

/// A filled entry is complete where the entry to its right is, and (but in the first row)
/// the entry up and to the right, which bounds the range searched.
proof fn lemma_cell_complete<T: Symbol>(
    l0: Seq<usize>,
    l: Seq<usize>,
    w: int,
    r: int,
    c: int,
    found: int,
    upper: int,
    sigma: Seq<T>,
    tau: Seq<T>,
)
    requires
        0 <= r,
        0 <= c,
        at(l, w, r, c) == found,
        found >= at(l0, w, r, c + 1),
        forall|hh: int|
            at(l0, w, r, c + 1) < hh < upper && #[trigger] tau[hh - 1].key() == sigma[c].key() ==> hh <= found,
        complete_at(l0, w, r, c + 1, keys(sigma), keys(tau)),
        r >= 1 ==> complete_at(l0, w, r - 1, c + 1, keys(sigma), keys(tau)) && upper == at(l0, w, r - 1, c + 1),
        r == 0 ==> upper == tau.len() + 1,
    ensures
        complete_at(l, w, r, c, keys(sigma), keys(tau)),
{
    let sk = keys(sigma);
    let tk = keys(tau);
    assert forall|h: int| 1 <= h <= tk.len() && #[trigger] suffix_lcs(sk, tk, c, h - 1) >= r + 1 implies at(
        l,
        w,
        r,
        c,
    ) >= h by {
        let z = lemma_first_match(sk, tk, c, h - 1, (r + 1) as nat);
        if z == -1 {
            assert(suffix_lcs(sk, tk, c + 1, h - 1) >= r + 1);
        } else if z + 1 > at(l0, w, r, c + 1) {
            assert(tau[z].key() == sigma[c].key());
            if r >= 1 {
                if z + 1 >= tk.len() {
                    assert(suffix_lcs(sk, tk, c + 1, z + 1) == 0);
                }
                assert(suffix_lcs(sk, tk, c + 1, (z + 2) - 1) >= r);
            }
            assert(tau[(z + 1) - 1].key() == sigma[c].key());
        }
    }
}

/// One longest common subsequence of `a_string` and `b_string` by Nakatsu's algorithm, which
/// is fast when the two are similar. It walks the diagonals of a triangular matrix over the
/// shorter input from the longest down, and traces the subsequence back through the first
/// diagonal that fills completely; the items returned are taken from the longer input (from
/// `b_string` when the lengths are equal).
#[verifier::rlimit(30)]
pub fn lcs_nakatsu<T: Symbol>(a_string: &[T], b_string: &[T]) -> (r: Vec<T>)
    requires
        a_string@.len() < usize::MAX,
        b_string@.len() < usize::MAX,
        matrix_fits(a_string@.len(), b_string@.len()),
    ensures
        is_subseq(keys(r@), keys(a_string@)),
        is_subseq(keys(r@), keys(b_string@)),
        a_string@.len() == 0 || b_string@.len() == 0 ==> r@.len() == 0,
        keys(a_string@) == keys(b_string@) ==> keys(r@) == keys(a_string@),
        forall|c: Seq<Seq<u8>>|
            is_subseq(c, keys(a_string@)) && #[trigger] is_subseq(c, keys(b_string@)) ==> c.len()
                <= r@.len(),
        r@.len() == lcs_length(a_string@, b_string@, a_string@.len() as int, b_string@.len() as int),
{
    let ghost same = keys(a_string@) == keys(b_string@);
    proof {
        lemma_lcs_length_is_longest(a_string@, b_string@);
    }
    let a_len = a_string.len();
    let b_len = b_string.len();
    // sigma is the shorter input, tau the longer
    let m_string: &[T];
    let n_string: &[T];
    if a_len <= b_len {
        m_string = a_string;
        n_string = b_string;
    } else {
        m_string = b_string;
        n_string = a_string;
    }
    let m_len: usize = m_string.len();
    let n_len: usize = n_string.len();
    let ghost sigma = m_string@;
    let ghost tau = n_string@;
    let ghost m = m_len as int;
    let ghost n = n_len as int;
    if m_len == 0 {
        proof {
            if same {
                assert(keys(Seq::<T>::empty()) =~= keys(a_string@));
            }
            assert forall|c: Seq<Seq<u8>>|
                is_subseq(c, keys(a_string@)) && #[trigger] is_subseq(c, keys(b_string@)) implies c.len()
                    <= 0 by {
                if c.len() > 0 {
                    assert(keys(sigma).len() == 0);
                }
            }
            let wit = lcs_witness(a_string@, b_string@, a_string@.len() as int, b_string@.len() as int);
            assert(wit.len() <= 0);
        }
        return Vec::new();
    }
    proof {
        if same {
            assert(keys(a_string@).len() == keys(b_string@).len());
            assert forall|t: int| 0 <= t < m implies #[trigger] tau[t].key() == sigma[t].key() by {
                assert(keys(a_string@)[t] == keys(b_string@)[t]);
            }
        }
    }
    let w: usize = m_len + 1;
    proof {
        lemma_mul_is_distributive_add_other_way(w as int, m as int, 1);
    }
    let m_size: usize = w * w;
    let mut l: Vec<usize> = vec![0usize; m_size];
    proof {
        assert forall|r: int, c: int| 0 <= r <= m && 0 <= c <= m implies #[trigger] at(l@, w as int, r, c) == 0 by {
            lemma_index(w as int, r, c);
        }
    }
    let ghost sk = keys(sigma);
    let ghost tk = keys(tau);
    proof {
        assert forall|r: int, c: int| 0 <= r <= m && 0 <= c <= m && r + c + 1 > m implies #[trigger] complete_at(
            l@,
            w as int,
            r,
            c,
            sk,
            tk,
        ) by {
            assert forall|h: int| 1 <= h <= tk.len() && #[trigger] suffix_lcs(sk, tk, c, h - 1) >= r + 1 implies at(
                l@,
                w as int,
                r,
                c,
            ) >= h by {
                lemma_suffix_lcs_len(sk, tk, c, h - 1);
            }
        }
        lemma_suffix_lcs_len(sk, tk, 0, 0);
    }
    // fill the diagonals, longest first, until one fills completely
    let mut diagonal_len: usize = m_len;
    while diagonal_len > 0
        invariant_except_break
            forall|r: int, c: int|
                0 <= r <= m && 0 <= c <= m && r + c + 1 <= diagonal_len ==> #[trigger] at(
                    l@,
                    w as int,
                    r,
                    c,
                ) == 0,
        invariant
            w == m + 1,
            m == m_len,
            n == n_len,
            m <= n,
            n < usize::MAX,
            m_size == w * w,
            sigma == m_string@,
            tau == n_string@,
            sigma.len() == m,
            tau.len() == n,
            sk == keys(sigma),
            tk == keys(tau),
            diagonal_len <= m,
            matrix_ok(l@, m, n, sigma, tau),
            same ==> m == n && diagonal_len == m,
            same ==> forall|t: int| 0 <= t < m ==> #[trigger] tau[t].key() == sigma[t].key(),
            forall|r: int, c: int|
                0 <= r <= m && 0 <= c <= m && r + c + 1 > diagonal_len ==> #[trigger] complete_at(
                    l@,
                    w as int,
                    r,
                    c,
                    sk,
                    tk,
                ),
            suffix_lcs(sk, tk, 0, 0) <= diagonal_len,
        ensures
            diagonal_len <= m,
            matrix_ok(l@, m, n, sigma, tau),
            diagonal_len > 0 ==> at(l@, w as int, diagonal_len - 1, 0) != 0,
            same ==> diagonal_len == m && m == n,
            suffix_lcs(sk, tk, 0, 0) <= diagonal_len,
        decreases diagonal_len,
    {
        let mut solved: bool = true;
        let mut prev_l: usize = 0;
        let mut j: usize = 1;
        let ghost d = diagonal_len as int;
        while j <= diagonal_len
            invariant_except_break
                solved,
                j >= 2 ==> prev_l != 0 && prev_l == at(l@, w as int, j - 2, d - j + 1),
                same && d == m && j >= 2 ==> prev_l == d - j + 2,
                forall|r: int, c: int|
                    0 <= r <= m && 0 <= c <= m && r + c + 1 == d && r >= j - 1 ==> #[trigger] at(
                        l@,
                        w as int,
                        r,
                        c,
                    ) == 0,
            invariant
                same ==> m == n,
                same ==> forall|t: int| 0 <= t < m ==> #[trigger] tau[t].key() == sigma[t].key(),
                w == m + 1,
                m == m_len,
                n == n_len,
                m <= n,
                n < usize::MAX,
                m_size == w * w,
                sigma == m_string@,
                tau == n_string@,
                sigma.len() == m,
                tau.len() == n,
                sk == keys(sigma),
                tk == keys(tau),
                d == diagonal_len,
                1 <= d <= m,
                1 <= j <= d + 1,
                matrix_ok(l@, m, n, sigma, tau),
                forall|r: int, c: int|
                    0 <= r <= m && 0 <= c <= m && r + c + 1 < d ==> #[trigger] at(l@, w as int, r, c)
                        == 0,
                forall|r: int, c: int|
                    0 <= r <= m && 0 <= c <= m && (r + c + 1 > d || (r + c + 1 == d && r < j - 1))
                        ==> #[trigger] complete_at(l@, w as int, r, c, sk, tk),
                suffix_lcs(sk, tk, 0, 0) <= d,
            ensures
                matrix_ok(l@, m, n, sigma, tau),
                forall|r: int, c: int|
                    0 <= r <= m && 0 <= c <= m && r + c + 1 < d ==> #[trigger] at(l@, w as int, r, c)
                        == 0,
                solved ==> at(l@, w as int, d - 1, 0) != 0,
                same && d == m ==> solved,
                !solved ==> forall|r: int, c: int|
                    0 <= r <= m && 0 <= c <= m && r + c + 1 >= d ==> #[trigger] complete_at(
                        l@,
                        w as int,
                        r,
                        c,
                        sk,
                        tk,
                    ),
                !solved ==> suffix_lcs(sk, tk, 0, 0) < d,
            decreases d + 1 - j,
        {
            let i = diagonal_len - j + 1;
            let ghost r = (j - 1) as int;
            let ghost c = (i - 1) as int;
            proof {
                lemma_index(w as int, r, c);
                lemma_index(w as int, r, c + 1);
            }
            let upper_bound = if j >= 2 && prev_l != 0 {
                prev_l
            } else {
                n_len + 1
            };
            let ghost l0 = l@;
            proof {
                if c >= 1 {
                    assert(at(l@, w as int, r, c - 1) == 0);
                    if r + 1 <= m {
                        assert(at(l@, w as int, r + 1, c - 1) == 0);
                    }
                }
            }
            let found = fill_cell(&mut l, m_string, n_string, w, j - 1, i - 1, upper_bound);
            proof {
                lemma_write(l0, w as int, r, c, found);
                let lower = at(l0, w as int, r, c + 1);
                if same && d == m {
                    assert(at(l0, w as int, r, c + 1) == 0);
                    assert(tau[c].key() == sigma[c].key());
                }
                // the new entry is complete
                assert(complete_at(l0, w as int, r, c + 1, sk, tk));
                if r >= 1 {
                    assert(complete_at(l0, w as int, r - 1, c + 1, sk, tk));
                }
                lemma_cell_complete(l0, l@, w as int, r, c, found as int, upper_bound as int, sigma, tau);
                // and the others keep their values
                assert forall|r2: int, c2: int|
                    0 <= r2 <= m && 0 <= c2 <= m && (r2 + c2 + 1 > d || (r2 + c2 + 1 == d && r2 < j))
                        implies #[trigger] complete_at(l@, w as int, r2, c2, sk, tk) by {
                    if r2 != r || c2 != c {
                        assert(complete_at(l0, w as int, r2, c2, sk, tk));
                        assert(at(l@, w as int, r2, c2) == at(l0, w as int, r2, c2));
                    }
                }
            }
            prev_l = found;
            if prev_l == 0 {
                proof {
                    // no common subsequence of `r + 1` items starts at sigma[c], so none
                    // further down this diagonal either, nor one of `d` items overall
                    assert(complete_at(l@, w as int, r, c, sk, tk));
                    if suffix_lcs(sk, tk, c, 0) >= r + 1 {
                        assert(suffix_lcs(sk, tk, c, 1 - 1) >= r + 1);
                    }
                    assert forall|r2: int, c2: int|
                        0 <= r2 <= m && 0 <= c2 <= m && r2 + c2 + 1 >= d implies #[trigger] complete_at(
                        l@,
                        w as int,
                        r2,
                        c2,
                        sk,
                        tk,
                    ) by {
                        if r2 + c2 + 1 == d && r2 > r {
                            assert forall|h: int|
                                1 <= h <= tk.len() && #[trigger] suffix_lcs(sk, tk, c2, h - 1) >= r2 + 1 implies at(
                                l@,
                                w as int,
                                r2,
                                c2,
                            ) >= h by {
                                lemma_suffix_lcs_far(sk, tk, c2, c - c2, 0, h - 1);
                            }
                        }
                    }
                    lemma_suffix_lcs_far(sk, tk, 0, c, 0, 0);
                }
                solved = false;
                break;
            }
            j = j + 1;
        }
        if solved {
            break;
        }
        diagonal_len = diagonal_len - 1;
    }
    // trace the subsequence back, one row per item
    let p = diagonal_len;
    let mut lcs: Vec<T> = Vec::with_capacity(p);
    let ghost mut pos_tau: Seq<int> = Seq::empty();
    let ghost mut pos_sigma: Seq<int> = Seq::empty();
    if p > 0 {
        proof {
            lemma_index(w as int, p - 1, 0);
        }
        let mut index: usize = (p - 1) * w;
        let mut k: usize = p;
        let ghost mut r: int = p - 1;
        let ghost mut c: int = 0;
        while k > 0
            invariant
                w == m + 1,
                m == m_len,
                n == n_len,
                m_size == w * w,
                sigma == m_string@,
                tau == n_string@,
                sigma.len() == m,
                tau.len() == n,
                1 <= p <= m,
                k <= p,
                same ==> p == n,
                suffix_lcs(keys(sigma), keys(tau), 0, 0) <= p,
                matrix_ok(l@, m, n, sigma, tau),
                k >= 1 ==> r == k - 1 && 0 <= c <= m && index == r * w + c && at(l@, w as int, r, c)
                    != 0,
                lcs@.len() == p - k,
                pos_tau.len() == p - k,
                pos_sigma.len() == p - k,
                forall|t: int|
                    0 <= t < pos_tau.len() ==> 0 <= #[trigger] pos_tau[t] < n && tau[pos_tau[t]].key()
                        == lcs@[t].key(),
                forall|t: int|
                    0 <= t < pos_sigma.len() ==> 0 <= #[trigger] pos_sigma[t] < m
                        && sigma[pos_sigma[t]].key() == lcs@[t].key(),
                forall|t: int, u: int| 0 <= t < u < pos_tau.len() ==> pos_tau[t] < pos_tau[u],
                forall|t: int, u: int| 0 <= t < u < pos_sigma.len() ==> pos_sigma[t] < pos_sigma[u],
                k >= 1 && pos_tau.len() > 0 ==> pos_tau.last() < at(l@, w as int, r, c) - 1
                    && pos_sigma.last() < c,
            decreases k,
        {
            let ghost v = at(l@, w as int, r, c);
            let ghost c0 = c;
            proof {
                if r + c >= m {
                    assert(at(l@, w as int, r, c) == 0);
                }
                lemma_index(w as int, r, c + 1);
            }
            // walk right while the entry repeats
            while l[index] == l[index + 1]
                invariant
                    w == m + 1,
                    m_size == w * w,
                    matrix_ok(l@, m, n, sigma, tau),
                    0 <= r <= m,
                    0 <= c0 <= c <= m,
                    r + c < m,
                    index == r * w + c,
                    at(l@, w as int, r, c) == v,
                    v != 0,
                    index + 1 < l@.len(),
                    index + 1 == r * w + c + 1,
                    r * w + c + 1 == r * w + (c + 1),
                decreases m - c,
            {
                proof {
                    // the entries on and below the anti-diagonal are 0, so a walk over a
                    // nonzero entry stays above it
                    if r + c + 1 >= m {
                        assert(at(l@, w as int, r, c + 1) == 0);
                    }
                }
                index = index + 1;
                proof {
                    c = c + 1;
                    lemma_index(w as int, r, c + 1);
                }
            }
            proof {
                assert(cell_ok(l@, w as int, r, c, sigma, tau));
            }
            let h = l[index];
            let item = n_string[h - 1].duplicate();
            lcs.push(item);
            proof {
                pos_tau = pos_tau.push(h - 1);
                pos_sigma = pos_sigma.push(c);
            }
            if k > 1 {
                proof {
                    lemma_index(w as int, r, c);
                }
                index = index - m_len;
                proof {
                    r = r - 1;
                    c = c + 1;
                    lemma_index(w as int, r, c);
                }
            }
            k = k - 1;
        }
    }
    proof {
        assert(embeds(keys(lcs@), keys(tau), pos_tau));
        assert(embeds(keys(lcs@), keys(sigma), pos_sigma));
        lemma_embeds_subseq(keys(lcs@), keys(tau), pos_tau);
        lemma_embeds_subseq(keys(lcs@), keys(sigma), pos_sigma);
        assert forall|c: Seq<Seq<u8>>|
            is_subseq(c, keys(a_string@)) && #[trigger] is_subseq(c, keys(b_string@)) implies c.len()
                <= lcs@.len() by {
            assert(keys(sigma).subrange(0, m) =~= keys(sigma));
            assert(keys(tau).subrange(0, n) =~= keys(tau));
            lemma_common_bounded(keys(sigma), keys(tau), 0, 0, c);
        }
        let wit = lcs_witness(a_string@, b_string@, a_string@.len() as int, b_string@.len() as int);
        assert(wit.len() <= lcs@.len());
        assert(keys(lcs@).len() == lcs@.len());
        if same {
            lemma_increasing_fill(pos_tau, n);
            assert(lcs@.len() == n);
            assert forall|t: int| 0 <= t < n implies keys(lcs@)[t] == keys(tau)[t] by {
                assert(pos_tau[t] == t);
                assert(tau[pos_tau[t]].key() == lcs@[t].key());
            }
            assert(keys(lcs@) =~= keys(tau));
            assert(keys(a_string@) == keys(b_string@));
        }
    }
    lcs
}

/// `n` strictly increasing positions below `n` are `0, 1, ..., n - 1`.
proof fn lemma_increasing_fill(s: Seq<int>, n: int)
    requires
        s.len() == n,
        forall|t: int| 0 <= t < n ==> 0 <= #[trigger] s[t] < n,
        forall|t: int, u: int| 0 <= t < u < n ==> s[t] < s[u],
    ensures
        forall|t: int| 0 <= t < n ==> #[trigger] s[t] == t,
{
    assert forall|t: int| 0 <= t < n implies #[trigger] s[t] == t by {
        lemma_increasing_low(s, n, t);
        lemma_increasing_high(s, n, t);
    }
}

proof fn lemma_increasing_low(s: Seq<int>, n: int, t: int)
    requires
        s.len() == n,
        forall|x: int| 0 <= x < n ==> 0 <= #[trigger] s[x] < n,
        forall|x: int, u: int| 0 <= x < u < n ==> s[x] < s[u],
        0 <= t < n,
    ensures
        s[t] >= t,
    decreases t,
{
    if t > 0 {
        lemma_increasing_low(s, n, t - 1);
        assert(s[t - 1] < s[t]);
    }
}

proof fn lemma_increasing_high(s: Seq<int>, n: int, t: int)
    requires
        s.len() == n,
        forall|x: int| 0 <= x < n ==> 0 <= #[trigger] s[x] < n,
        forall|x: int, u: int| 0 <= x < u < n ==> s[x] < s[u],
        0 <= t < n,
    ensures
        s[t] <= t,
    decreases n - t,
{
    if t < n - 1 {
        lemma_increasing_high(s, n, t + 1);
        assert(s[t] < s[t + 1]);
    }
}

/// The length of a longest common subsequence of the first `i` items of `a` and the first
/// `j` items of `b`, by the classical recurrence.
pub open spec fn lcs_length<T: Symbol>(a: Seq<T>, b: Seq<T>, i: int, j: int) -> nat
    decreases i, j,
{
    if i <= 0 || j <= 0 {
        0
    } else if a[i - 1].key() == b[j - 1].key() {
        lcs_length(a, b, i - 1, j - 1) + 1
    } else {
        let up = lcs_length(a, b, i - 1, j);
        let left = lcs_length(a, b, i, j - 1);
        if up >= left {
            up
        } else {
            left
        }
    }
}

proof fn lemma_lcs_length_bound<T: Symbol>(a: Seq<T>, b: Seq<T>, i: int, j: int)
    requires
        0 <= i,
    ensures
        lcs_length(a, b, i, j) <= i,
    decreases i, j,
{
    if i > 0 && j > 0 {
        lemma_lcs_length_bound(a, b, i - 1, j - 1);
        lemma_lcs_length_bound(a, b, i - 1, j);
        lemma_lcs_length_bound(a, b, i, j - 1);
    }
}

/// The length of a longest common subsequence of `a_string` and `b_string`, by dynamic
/// programming over two rows of the matrix.
pub fn lcs_len<T: Symbol>(a_string: &[T], b_string: &[T]) -> (r: usize)
    requires
        b_string@.len() < usize::MAX,
    ensures
        r == lcs_length(a_string@, b_string@, a_string@.len() as int, b_string@.len() as int),
{
    let ghost a = a_string@;
    let ghost b = b_string@;
    let n = b_string.len();
    let mut prev: Vec<usize> = vec![0usize; n + 1];
    let mut i: usize = 0;
    while i < a_string.len()
        invariant
            a == a_string@,
            b == b_string@,
            n == b.len() < usize::MAX,
            i <= a.len(),
            prev@.len() == n + 1,
            forall|j: int| 0 <= j <= n ==> #[trigger] prev@[j] == lcs_length(a, b, i as int, j),
        decreases a.len() - i,
    {
        let mut cur: Vec<usize> = vec![0usize; n + 1];
        let mut j: usize = 1;
        while j <= n
            invariant
                a == a_string@,
                b == b_string@,
                n == b.len() < usize::MAX,
                i < a.len(),
                1 <= j <= n + 1,
                prev@.len() == n + 1,
                cur@.len() == n + 1,
                forall|k: int| 0 <= k <= n ==> #[trigger] prev@[k] == lcs_length(a, b, i as int, k),
                forall|k: int| 0 <= k < j ==> #[trigger] cur@[k] == lcs_length(a, b, i + 1, k),
            decreases n + 1 - j,
        {
            proof {
                lemma_lcs_length_bound(a, b, i as int, j - 1);
            }
            let value = if a_string[i].same(&b_string[j - 1]) {
                prev[j - 1] + 1
            } else if prev[j] >= cur[j - 1] {
                prev[j]
            } else {
                cur[j - 1]
            };
            cur.set(j, value);
            j = j + 1;
        }
        prev = cur;
        i = i + 1;
    }
    prev[n]
}

/// Nakatsu's matrix for lists of `a_len` and `b_len` items fits in memory addresses.
pub open spec fn matrix_fits(a_len: nat, b_len: nat) -> bool {
    let m = if a_len <= b_len {
        a_len
    } else {
        b_len
    };
    a_len < usize::MAX && b_len < usize::MAX && (m + 1) * (m + 1) <= usize::MAX
}

/// Whether Nakatsu's matrix for lists of these lengths fits in memory addresses.
fn lcs_fits(a_len: usize, b_len: usize) -> (r: bool)
    ensures
        r == matrix_fits(a_len as nat, b_len as nat),
{
    if a_len == usize::MAX || b_len == usize::MAX {
        return false;
    }
    let m = if a_len <= b_len {
        a_len
    } else {
        b_len
    };
    let side = m + 1;
    let fits = side <= usize::MAX / side;
    proof {
        let mx = usize::MAX as int;
        let sd = side as int;
        let q = mx / sd;
        vstd::arithmetic::div_mod::lemma_fundamental_div_mod(mx, sd);
        let rem = mx % sd;
        if fits {
            assert(sd * sd <= sd * q) by (nonlinear_arith)
                requires
                    sd <= q,
                    sd >= 1,
            ;
            assert(sd * q <= mx) by (nonlinear_arith)
                requires
                    mx == sd * q + rem,
                    rem >= 0,
            ;
        } else {
            assert(sd * sd >= sd * (q + 1)) by (nonlinear_arith)
                requires
                    sd >= q + 1,
                    sd >= 1,
            ;
            assert(sd * (q + 1) > mx) by (nonlinear_arith)
                requires
                    mx == sd * q + rem,
                    rem < sd,
            ;
        }
    }
    fits
}

/// One longest common subsequence of `a_string` and `b_string`, by Nakatsu's algorithm;
/// empty where its matrix would not fit in memory addresses.
pub fn lcs<T: Symbol>(a_string: &[T], b_string: &[T]) -> (r: Vec<T>)
    ensures
        is_subseq(keys(r@), keys(a_string@)),
        is_subseq(keys(r@), keys(b_string@)),
        matrix_fits(a_string@.len(), b_string@.len()) ==> forall|c: Seq<Seq<u8>>|
            is_subseq(c, keys(a_string@)) && #[trigger] is_subseq(c, keys(b_string@)) ==> c.len()
                <= r@.len(),
        matrix_fits(a_string@.len(), b_string@.len()) ==> r@.len() == lcs_length(
            a_string@,
            b_string@,
            a_string@.len() as int,
            b_string@.len() as int,
        ),
        keys(a_string@) == keys(b_string@) && matrix_fits(a_string@.len(), a_string@.len()) ==> keys(r@)
            == keys(a_string@),
{
    if lcs_fits(a_string.len(), b_string.len()) {
        lcs_nakatsu(a_string, b_string)
    } else {
        let r: Vec<T> = Vec::new();
        proof {
            assert(keys(r@) =~= Seq::<Seq<u8>>::empty());
        }
        r
    }
}

/// The length of a longest common subsequence of `a[x..]` and `b[y..]`.
pub open spec fn suffix_lcs(a: Seq<Seq<u8>>, b: Seq<Seq<u8>>, x: int, y: int) -> nat
    decreases a.len() - x, b.len() - y,
{
    if x < 0 || y < 0 || x >= a.len() || y >= b.len() {
        0
    } else if a[x] == b[y] {
        suffix_lcs(a, b, x + 1, y + 1) + 1
    } else {
        let p = suffix_lcs(a, b, x + 1, y);
        let q = suffix_lcs(a, b, x, y + 1);
        if p >= q {
            p
        } else {
            q
        }
    }
}

/// Dropping the first item of either suffix loses at most one from the longest common
/// subsequence, and never gains.
proof fn lemma_suffix_lcs_steps(a: Seq<Seq<u8>>, b: Seq<Seq<u8>>, x: int, y: int)
    requires
        0 <= x,
        0 <= y,
    ensures
        suffix_lcs(a, b, x + 1, y) <= suffix_lcs(a, b, x, y) <= suffix_lcs(a, b, x + 1, y) + 1,
        suffix_lcs(a, b, x, y + 1) <= suffix_lcs(a, b, x, y) <= suffix_lcs(a, b, x, y + 1) + 1,
    decreases a.len() - x + b.len() - y,
{
    if x < a.len() && y < b.len() {
        lemma_suffix_lcs_steps(a, b, x + 1, y);
        lemma_suffix_lcs_steps(a, b, x, y + 1);
        if x + 1 < a.len() || y + 1 < b.len() {
            lemma_suffix_lcs_steps(a, b, x + 1, y + 1);
        }
    }
}

/// A suffix of `a` of `a.len() - x` items has no longer common subsequence.
proof fn lemma_suffix_lcs_len(a: Seq<Seq<u8>>, b: Seq<Seq<u8>>, x: int, y: int)
    requires
        0 <= x,
        0 <= y,
    ensures
        suffix_lcs(a, b, x, y) <= if x <= a.len() { a.len() - x } else { 0 },
    decreases a.len() - x + b.len() - y,
{
    if x < a.len() && y < b.len() {
        lemma_suffix_lcs_len(a, b, x + 1, y);
        lemma_suffix_lcs_len(a, b, x, y + 1);
        lemma_suffix_lcs_len(a, b, x + 1, y + 1);
    }
}

/// Dropping `t` items from the front of `a` loses at most `t`; starting later in `b` never
/// gains.
proof fn lemma_suffix_lcs_far(a: Seq<Seq<u8>>, b: Seq<Seq<u8>>, x: int, t: int, y: int, u: int)
    requires
        0 <= x,
        0 <= t,
        0 <= y,
        0 <= u,
    ensures
        suffix_lcs(a, b, x, y) <= suffix_lcs(a, b, x + t, y) + t,
        suffix_lcs(a, b, x, y + u) <= suffix_lcs(a, b, x, y),
    decreases t + u,
{
    if t > 0 {
        lemma_suffix_lcs_far(a, b, x + 1, t - 1, y, 0);
        lemma_suffix_lcs_steps(a, b, x, y);
    }
    if u > 0 {
        lemma_suffix_lcs_far(a, b, x, 0, y, u - 1);
        lemma_suffix_lcs_steps(a, b, x, y + u - 1);
    }
}

/// No common subsequence of `a[x..]` and `b[y..]` is longer than `suffix_lcs`.
proof fn lemma_common_bounded(a: Seq<Seq<u8>>, b: Seq<Seq<u8>>, x: int, y: int, c: Seq<Seq<u8>>)
    requires
        0 <= x <= a.len(),
        0 <= y <= b.len(),
        is_subseq(c, a.subrange(x, a.len() as int)),
        is_subseq(c, b.subrange(y, b.len() as int)),
    ensures
        c.len() <= suffix_lcs(a, b, x, y),
    decreases a.len() - x + b.len() - y,
{
    if c.len() > 0 {
        let sa = a.subrange(x, a.len() as int);
        let sb = b.subrange(y, b.len() as int);
        assert(sa.len() > 0 && sb.len() > 0);
        assert(sa.drop_first() =~= a.subrange(x + 1, a.len() as int));
        assert(sb.drop_first() =~= b.subrange(y + 1, b.len() as int));
        lemma_suffix_lcs_steps(a, b, x, y);
        if c[0] != sa[0] {
            lemma_common_bounded(a, b, x + 1, y, c);
        } else if c[0] != sb[0] {
            lemma_common_bounded(a, b, x, y + 1, c);
        } else {
            lemma_common_bounded(a, b, x + 1, y + 1, c.drop_first());
        }
    }
}

/// Where `a[x..]` and `b[y..]` share `k >= 1` items, either `a[x + 1..]` and `b[y..]` share
/// `k` too, or `a[x]` matches some `b[z]`, `z >= y`, after which `a[x + 1..]` and
/// `b[z + 1..]` share `k - 1`: the witness `z` is returned, or -1 in the first case.
proof fn lemma_first_match(a: Seq<Seq<u8>>, b: Seq<Seq<u8>>, x: int, y: int, k: nat) -> (z: int)
    requires
        0 <= x,
        0 <= y,
        k >= 1,
        suffix_lcs(a, b, x, y) >= k,
    ensures
        z == -1 ==> suffix_lcs(a, b, x + 1, y) >= k,
        z != -1 ==> y <= z < b.len() && x < a.len() && b[z] == a[x] && suffix_lcs(a, b, x + 1, z + 1) + 1
            >= k,
    decreases b.len() - y,
{
    if a[x] == b[y] {
        y
    } else if suffix_lcs(a, b, x + 1, y) >= k {
        -1
    } else {
        let z = lemma_first_match(a, b, x, y + 1, k);
        if z == -1 {
            lemma_suffix_lcs_steps(a, b, x + 1, y);
        }
        z
    }
}

proof fn lemma_subseq_push_right<A>(c: Seq<A>, x: Seq<A>, e: A)
    requires
        is_subseq(c, x),
    ensures
        is_subseq(c, x.push(e)),
    decreases x.len(),
{
    if c.len() > 0 && x.len() > 0 {
        assert(x.push(e).drop_first() =~= x.drop_first().push(e));
        if c[0] == x[0] {
            lemma_subseq_push_right(c.drop_first(), x.drop_first(), e);
        } else {
            lemma_subseq_push_right(c, x.drop_first(), e);
        }
    }
}

proof fn lemma_subseq_push_both<A>(c: Seq<A>, x: Seq<A>, e: A)
    requires
        is_subseq(c, x),
    ensures
        is_subseq(c.push(e), x.push(e)),
    decreases x.len(),
{
    if x.len() == 0 {
        assert(c.len() == 0);
        assert(c.push(e) =~= seq![e]);
        assert(x.push(e) =~= seq![e]);
        assert(seq![e].drop_first() =~= Seq::<A>::empty());
        assert(is_subseq(Seq::<A>::empty(), Seq::<A>::empty()));
        assert(is_subseq(seq![e], seq![e]));
    } else {
        let y = x.push(e);
        assert(y.drop_first() =~= x.drop_first().push(e));
        assert(y[0] == x[0]);
        if c.len() == 0 {
            let ce = c.push(e);
            assert(ce =~= seq![e]);
            assert(ce.drop_first() =~= Seq::<A>::empty());
            if x[0] != e {
                lemma_subseq_push_both(c, x.drop_first(), e);
                assert(is_subseq(ce, y.drop_first()));
            } else {
                assert(is_subseq(ce.drop_first(), y.drop_first()));
            }
            assert(is_subseq(ce, y));
        } else {
            let ce = c.push(e);
            assert(ce[0] == c[0]);
            assert(ce.drop_first() =~= c.drop_first().push(e));
            if c[0] == x[0] {
                lemma_subseq_push_both(c.drop_first(), x.drop_first(), e);
                assert(is_subseq(ce.drop_first(), y.drop_first()));
            } else {
                lemma_subseq_push_both(c, x.drop_first(), e);
                assert(is_subseq(ce, y.drop_first()));
            }
            assert(is_subseq(ce, y));
        }
    }
}

/// Of a subsequence of `x` followed by `e`, all but a last item equal to `e` lies in `x`.
proof fn lemma_subseq_pop<A>(c: Seq<A>, x: Seq<A>, e: A)
    requires
        is_subseq(c, x.push(e)),
        c.len() > 0,
    ensures
        c.last() != e ==> is_subseq(c, x),
        c.last() == e ==> is_subseq(c.drop_last(), x),
    decreases x.len(),
{
    let y = x.push(e);
    if x.len() == 0 {
        assert(y[0] == e);
        assert(y.drop_first() =~= Seq::<A>::empty());
        if c[0] == e {
            assert(is_subseq(c.drop_first(), y.drop_first()));
            if c.drop_first().len() > 0 {
                assert(!is_subseq(c.drop_first(), Seq::<A>::empty()));
            }
            assert(c.len() == 1);
            assert(c.drop_last() =~= Seq::<A>::empty());
        } else {
            assert(is_subseq(c, y.drop_first()));
            assert(!is_subseq(c, Seq::<A>::empty()));
        }
    } else {
        assert(y[0] == x[0]);
        assert(y.drop_first() =~= x.drop_first().push(e));
        if c[0] == x[0] {
            let d = c.drop_first();
            assert(is_subseq(d, y.drop_first()));
            if d.len() == 0 {
                assert(c.len() == 1);
                assert(c.drop_last() =~= Seq::<A>::empty());
                assert(is_subseq(d, x.drop_first()));
                assert(is_subseq(c, x));
            } else {
                lemma_subseq_pop(d, x.drop_first(), e);
                assert(d.last() == c.last());
                if c.last() != e {
                    assert(is_subseq(c, x));
                } else {
                    let cd = c.drop_last();
                    assert(cd.len() > 0);
                    assert(cd[0] == c[0]);
                    assert(cd.drop_first() =~= d.drop_last());
                    assert(is_subseq(cd, x));
                }
            }
        } else {
            assert(is_subseq(c, y.drop_first()));
            lemma_subseq_pop(c, x.drop_first(), e);
            if c.last() != e {
                assert(is_subseq(c, x));
            } else {
                let cd = c.drop_last();
                if cd.len() > 0 {
                    assert(cd[0] == c[0]);
                    assert(is_subseq(cd, x));
                }
            }
        }
    }
}

/// The classical recurrence never loses by looking at longer prefixes, and gains at most
/// one per item.
proof fn lemma_lcs_length_steps<T: Symbol>(a: Seq<T>, b: Seq<T>, i: int, j: int)
    requires
        1 <= i,
        1 <= j,
    ensures
        lcs_length(a, b, i - 1, j) <= lcs_length(a, b, i, j) <= lcs_length(a, b, i - 1, j) + 1,
        lcs_length(a, b, i, j - 1) <= lcs_length(a, b, i, j) <= lcs_length(a, b, i, j - 1) + 1,
    decreases i + j,
{
    if i >= 2 {
        lemma_lcs_length_steps(a, b, i - 1, j);
    }
    if j >= 2 {
        lemma_lcs_length_steps(a, b, i, j - 1);
    }
    if i >= 2 && j >= 2 {
        lemma_lcs_length_steps(a, b, i - 1, j - 1);
    }
}

/// No common subsequence of the first `i` items of `a` and the first `j` of `b` is longer
/// than `lcs_length`.
proof fn lemma_lcs_length_bounds<T: Symbol>(a: Seq<T>, b: Seq<T>, i: int, j: int, c: Seq<Seq<u8>>)
    requires
        0 <= i <= a.len(),
        0 <= j <= b.len(),
        is_subseq(c, keys(a).subrange(0, i)),
        is_subseq(c, keys(b).subrange(0, j)),
    ensures
        c.len() <= lcs_length(a, b, i, j),
    decreases i + j,
{
    if c.len() > 0 {
        if i == 0 || j == 0 {
            assert(false);
        } else {
            let xa = keys(a).subrange(0, i - 1);
            let xb = keys(b).subrange(0, j - 1);
            assert(keys(a).subrange(0, i) =~= xa.push(a[i - 1].key()));
            assert(keys(b).subrange(0, j) =~= xb.push(b[j - 1].key()));
            lemma_subseq_pop(c, xa, a[i - 1].key());
            lemma_subseq_pop(c, xb, b[j - 1].key());
            lemma_lcs_length_steps(a, b, i, j);
            if c.last() != a[i - 1].key() {
                lemma_lcs_length_bounds(a, b, i - 1, j, c);
            } else if c.last() != b[j - 1].key() {
                lemma_lcs_length_bounds(a, b, i, j - 1, c);
            } else {
                lemma_lcs_length_bounds(a, b, i - 1, j - 1, c.drop_last());
            }
        }
    }
}

/// A common subsequence of the first `i` items of `a` and the first `j` of `b` that the
/// classical recurrence builds.
pub open spec fn lcs_witness<T: Symbol>(a: Seq<T>, b: Seq<T>, i: int, j: int) -> Seq<Seq<u8>>
    decreases i, j,
{
    if i <= 0 || j <= 0 {
        Seq::empty()
    } else if a[i - 1].key() == b[j - 1].key() {
        lcs_witness(a, b, i - 1, j - 1).push(a[i - 1].key())
    } else if lcs_length(a, b, i - 1, j) >= lcs_length(a, b, i, j - 1) {
        lcs_witness(a, b, i - 1, j)
    } else {
        lcs_witness(a, b, i, j - 1)
    }
}

proof fn lemma_lcs_witness<T: Symbol>(a: Seq<T>, b: Seq<T>, i: int, j: int)
    requires
        0 <= i <= a.len(),
        0 <= j <= b.len(),
    ensures
        lcs_witness(a, b, i, j).len() == lcs_length(a, b, i, j),
        is_subseq(lcs_witness(a, b, i, j), keys(a).subrange(0, i)),
        is_subseq(lcs_witness(a, b, i, j), keys(b).subrange(0, j)),
    decreases i, j,
{
    if i > 0 && j > 0 {
        let xa = keys(a).subrange(0, i - 1);
        let xb = keys(b).subrange(0, j - 1);
        assert(keys(a).subrange(0, i) =~= xa.push(a[i - 1].key()));
        assert(keys(b).subrange(0, j) =~= xb.push(b[j - 1].key()));
        if a[i - 1].key() == b[j - 1].key() {
            lemma_lcs_witness(a, b, i - 1, j - 1);
            lemma_subseq_push_both(lcs_witness(a, b, i - 1, j - 1), xa, a[i - 1].key());
            lemma_subseq_push_both(lcs_witness(a, b, i - 1, j - 1), xb, b[j - 1].key());
        } else if lcs_length(a, b, i - 1, j) >= lcs_length(a, b, i, j - 1) {
            lemma_lcs_witness(a, b, i - 1, j);
            lemma_subseq_push_right(lcs_witness(a, b, i - 1, j), xa, a[i - 1].key());
        } else {
            lemma_lcs_witness(a, b, i, j - 1);
            lemma_subseq_push_right(lcs_witness(a, b, i, j - 1), xb, b[j - 1].key());
        }
    } else {
        assert(keys(a).subrange(0, i).len() == i);
    }
}

/// The classical recurrence gives the length of a longest common subsequence: no common
/// subsequence is longer, and one is that long.
pub proof fn lemma_lcs_length_is_longest<T: Symbol>(a: Seq<T>, b: Seq<T>)
    ensures
        forall|c: Seq<Seq<u8>>|
            is_subseq(c, keys(a)) && #[trigger] is_subseq(c, keys(b)) ==> c.len() <= lcs_length(
                a,
                b,
                a.len() as int,
                b.len() as int,
            ),
        is_subseq(lcs_witness(a, b, a.len() as int, b.len() as int), keys(a)),
        is_subseq(lcs_witness(a, b, a.len() as int, b.len() as int), keys(b)),
        lcs_witness(a, b, a.len() as int, b.len() as int).len() == lcs_length(
            a,
            b,
            a.len() as int,
            b.len() as int,
        ),
{
    assert(keys(a).subrange(0, a.len() as int) =~= keys(a));
    assert(keys(b).subrange(0, b.len() as int) =~= keys(b));
    assert forall|c: Seq<Seq<u8>>| is_subseq(c, keys(a)) && #[trigger] is_subseq(c, keys(b)) implies c.len()
        <= lcs_length(a, b, a.len() as int, b.len() as int) by {
        lemma_lcs_length_bounds(a, b, a.len() as int, b.len() as int, c);
    }
    lemma_lcs_witness(a, b, a.len() as int, b.len() as int);
}

/// Where the first `i` items of `a` and the first `j` of `b` share `k >= 1` items, either
/// the first `i - 1` items of `a` share `k` with them too, or `a[i - 1]` matches some
/// `b[z - 1]`, `z <= j`, and the first `i - 1` items of `a` share `k - 1` with the first
/// `z - 1` of `b`: the witness `z` is returned, or 0 in the first case.
pub proof fn lemma_last_match<T: Symbol>(a: Seq<T>, b: Seq<T>, i: int, j: int, k: nat) -> (z: int)
    requires
        1 <= i,
        0 <= j,
        k >= 1,
        lcs_length(a, b, i, j) >= k,
    ensures
        z == 0 ==> lcs_length(a, b, i - 1, j) >= k,
        z != 0 ==> 1 <= z <= j && a[i - 1].key() == b[z - 1].key() && lcs_length(a, b, i - 1, z - 1) + 1
            >= k,
    decreases j,
{
    if a[i - 1].key() == b[j - 1].key() {
        j
    } else if lcs_length(a, b, i - 1, j) >= k {
        0
    } else {
        let z = lemma_last_match(a, b, i, j - 1, k);
        if z == 0 {
            lemma_lcs_length_steps(a, b, i - 1 + 1, j);
            if i >= 2 {
                lemma_lcs_length_steps(a, b, i - 1, j);
            }
        }
        z
    }
}

} // verus!
