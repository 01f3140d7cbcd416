use crate::delta::is_subseq;
use crate::helper::{lower_bound, lower_bound_by, rank};
use crate::lcs::{
    embeds, keys, lcs_length, lemma_embeds_subseq, lemma_last_match, lemma_lcs_length_is_longest, Symbol,
};
use std::cmp::Ordering;
use vstd::prelude::*;
use vstd::std_specs::cmp::OrdSpec;

verus! {

/// The pairs `(i + 1, j + 1)` of positions with `a[i]` equal to `b[j]` for which `i` is
/// `row` and `j < col`, by decreasing `j`.
pub open spec fn row_pairs<T: Symbol>(a: Seq<T>, b: Seq<T>, row: int, col: int) -> Seq<(usize, usize)>
    decreases col,
{
    if col <= 0 {
        Seq::empty()
    } else {
        (if a[row].key() == b[col - 1].key() {
            seq![((row + 1) as usize, col as usize)]
        } else {
            Seq::empty()
        }) + row_pairs(a, b, row, col - 1)
    }
}

/// The pairs `(i + 1, j + 1)` of positions with `a[i]` equal to `b[j]` and `i < rows`, by
/// increasing `i` and, for one `i`, by decreasing `j`.
pub open spec fn matching_pairs<T: Symbol>(a: Seq<T>, b: Seq<T>, rows: int) -> Seq<(usize, usize)>
    decreases rows,
{
    if rows <= 0 {
        Seq::empty()
    } else {
        matching_pairs(a, b, rows - 1) + row_pairs(a, b, rows - 1, b.len() as int)
    }
}

/// The coordinates (counted from 1) of every pair of matching items of `a_string` and
/// `b_string`, in ascending order of the first coordinate and descending order of the second.
pub fn matching_characters_coordinates<T: Symbol>(a_string: &[T], b_string: &[T]) -> (r: Vec<
    (usize, usize),
>)
    requires
        a_string@.len() < usize::MAX,
        b_string@.len() < usize::MAX,
    ensures
        r@ == matching_pairs(a_string@, b_string@, a_string@.len() as int),
{
    let mut coords: Vec<(usize, usize)> = Vec::new();
    let mut i: usize = 0;
    while i < a_string.len()
        invariant
            i <= a_string@.len() < usize::MAX,
            b_string@.len() < usize::MAX,
            coords@ == matching_pairs(a_string@, b_string@, i as int),
        decreases a_string@.len() - i,
    {
        let ghost before = coords@;
        let mut j: usize = b_string.len();
        while j > 0
            invariant
                i < a_string@.len() < usize::MAX,
                j <= b_string@.len() < usize::MAX,
                coords@ + row_pairs(a_string@, b_string@, i as int, j as int) == before + row_pairs(
                    a_string@,
                    b_string@,
                    i as int,
                    b_string@.len() as int,
                ),
            decreases j,
        {
            let ghost c0 = coords@;
            if a_string[i].same(&b_string[j - 1]) {
                coords.push((i + 1, j));
                proof {
                    assert(c0 + row_pairs(a_string@, b_string@, i as int, j as int) =~= coords@
                        + row_pairs(a_string@, b_string@, i as int, j - 1));
                }
            } else {
                proof {
                    assert(row_pairs(a_string@, b_string@, i as int, j as int) =~= row_pairs(
                        a_string@,
                        b_string@,
                        i as int,
                        j - 1,
                    ));
                }
            }
            j = j - 1;
        }
        proof {
            assert(coords@ =~= coords@ + row_pairs(a_string@, b_string@, i as int, 0));
        }
        i = i + 1;
    }
    coords
}

/// Every pair lies in range, names two equal items, and the pairs come by nondecreasing first
/// coordinate.
proof fn lemma_matching_pairs<T: Symbol>(a: Seq<T>, b: Seq<T>, rows: int)
    requires
        0 <= rows <= a.len() < usize::MAX,
        b.len() < usize::MAX,
    ensures
        forall|t: int|
            0 <= t < matching_pairs(a, b, rows).len() ==> pair_ok(a, b, #[trigger] matching_pairs(a, b, rows)[t]),
        forall|t: int, u: int|
            0 <= t <= u < matching_pairs(a, b, rows).len() ==> (#[trigger] matching_pairs(a, b, rows)[t]).0
                <= (#[trigger] matching_pairs(a, b, rows)[u]).0,
        forall|t: int| 0 <= t < matching_pairs(a, b, rows).len() ==> (#[trigger] matching_pairs(a, b, rows)[t]).0 <= rows,
    decreases rows,
{
    if rows > 0 {
        lemma_matching_pairs(a, b, rows - 1);
        lemma_row_pairs(a, b, rows - 1, b.len() as int);
        let p = matching_pairs(a, b, rows - 1);
        let q = row_pairs(a, b, rows - 1, b.len() as int);
        assert(matching_pairs(a, b, rows) == p + q);
        assert forall|t: int| 0 <= t < (p + q).len() implies pair_ok(a, b, #[trigger] (p + q)[t]) by {
            if t < p.len() {
                assert((p + q)[t] == p[t]);
            } else {
                assert((p + q)[t] == q[t - p.len()]);
            }
        }
        assert forall|t: int, u: int| 0 <= t <= u < (p + q).len() implies (#[trigger] (p + q)[t]).0
            <= (#[trigger] (p + q)[u]).0 by {
            if t < p.len() {
                assert((p + q)[t] == p[t]);
            } else {
                assert((p + q)[t] == q[t - p.len()]);
            }
            if u < p.len() {
                assert((p + q)[u] == p[u]);
            } else {
                assert((p + q)[u] == q[u - p.len()]);
            }
        }
        assert forall|t: int| 0 <= t < (p + q).len() implies (#[trigger] (p + q)[t]).0 <= rows by {
            if t < p.len() {
                assert((p + q)[t] == p[t]);
            } else {
                assert((p + q)[t] == q[t - p.len()]);
            }
        }
    }
}

proof fn lemma_row_pairs<T: Symbol>(a: Seq<T>, b: Seq<T>, row: int, col: int)
    requires
        0 <= row < a.len() < usize::MAX,
        col <= b.len() < usize::MAX,
    ensures
        forall|t: int|
            0 <= t < row_pairs(a, b, row, col).len() ==> pair_ok(a, b, #[trigger] row_pairs(a, b, row, col)[t])
                && row_pairs(a, b, row, col)[t].0 == row + 1,
    decreases col,
{
    if col > 0 {
        lemma_row_pairs(a, b, row, col - 1);
        let head = if a[row].key() == b[col - 1].key() {
            seq![((row + 1) as usize, col as usize)]
        } else {
            Seq::empty()
        };
        let rest = row_pairs(a, b, row, col - 1);
        assert(row_pairs(a, b, row, col) == head + rest);
        assert forall|t: int| 0 <= t < (head + rest).len() implies pair_ok(a, b, #[trigger] (head + rest)[t])
            && (head + rest)[t].0 == row + 1 by {
            if t < head.len() {
                assert((head + rest)[t] == head[t]);
            } else {
                assert((head + rest)[t] == rest[t - head.len()]);
            }
        }
    }
}

/// A pair `(i, j)` of coordinates counted from 1 that names equal items `a[i - 1]` and
/// `b[j - 1]`.
pub open spec fn pair_ok<T: Symbol>(a: Seq<T>, b: Seq<T>, p: (usize, usize)) -> bool {
    &&& 1 <= p.0 <= a.len()
    &&& 1 <= p.1 <= b.len()
    &&& a[p.0 - 1].key() == b[p.1 - 1].key()
}

/// Head indices strictly increase from a leading 0.
pub open spec fn heads_ok(h: Seq<usize>) -> bool {
    &&& h.len() >= 1
    &&& h[0] == 0
    &&& forall|x: int, y: int| 0 <= x < y < h.len() ==> h[x] < h[y]
}

/// The pairs before `start` lie in rows before `i`, the others in row `i` or later.
pub open spec fn row_span(r: Seq<(usize, usize)>, i: int, start: int) -> bool {
    &&& 0 <= start <= r.len()
    &&& forall|t: int| 0 <= t < start ==> (#[trigger] r[t]).0 < i
    &&& forall|t: int| start <= t < r.len() ==> (#[trigger] r[t]).0 >= i
}

/// After a match at column `j` in this row, every block `k` whose previous head lay below
/// `j` has a head at most `j`.
pub open spec fn row_complete(g: Seq<usize>, h: Seq<usize>, j: int) -> bool {
    forall|k: int| 1 <= k && k - 1 < h.len() && #[trigger] h[k - 1] < j ==> k < g.len() && g[k] <= j
}

/// Block `k` kept its head `h[k]`, or took the column of a match in row `i` above the head
/// of block `k - 1`.
pub open spec fn settled<T: Symbol>(g: Seq<usize>, h: Seq<usize>, k: int, a: Seq<T>, b: Seq<T>, i: int) -> bool {
    (k < h.len() && g[k] == h[k]) || (1 <= g[k] <= b.len() && a[i - 1].key() == b[g[k] - 1].key() && k
        - 1 < h.len() && h[k - 1] < g[k])
}

/// Head `head[k]` is at most every `j` for which the rows done and the first `j` items of
/// `b` share `k` items: for the longest such `k` at each `j`, which suffices as the heads
/// increase.
pub open spec fn heads_complete<T: Symbol>(head: Seq<usize>, a: Seq<T>, b: Seq<T>, rows: int) -> bool {
    forall|j: int|
        0 <= j <= b.len() ==> #[trigger] lcs_length(a, b, rows, j) < head.len() && head[lcs_length(
            a,
            b,
            rows,
            j,
        ) as int] <= j
}

/// Runs the pairs of row `i`, which start at `r_index`, through the head indices: each match
/// replaces the first head at or above its column, or extends the heads.
fn process_row<T: Symbol>(
    head: &mut Vec<usize>,
    r: &Vec<(usize, usize)>,
    r_index: usize,
    i: usize,
    Ghost(a): Ghost<Seq<T>>,
    Ghost(b): Ghost<Seq<T>>,
) -> (end: usize)
    requires
        1 <= i <= a.len() < usize::MAX,
        b.len() < usize::MAX,
        r@ == matching_pairs(a, b, a.len() as int),
        forall|t: int| 0 <= t < r@.len() ==> pair_ok(a, b, #[trigger] r@[t]),
        forall|t: int, u: int| 0 <= t <= u < r@.len() ==> (#[trigger] r@[t]).0 <= (#[trigger] r@[u]).0,
        forall|t: int, u: int|
            0 <= t < u < r@.len() && (#[trigger] r@[t]).0 == (#[trigger] r@[u]).0 ==> r@[t].1 > r@[u].1,
        row_span(r@, i as int, r_index as int),
        heads_ok(old(head)@),
    ensures
        row_span(r@, i + 1, end as int),
        r_index <= end,
        heads_ok(final(head)@),
        final(head)@.len() >= old(head)@.len(),
        forall|k: int| 0 <= k < old(head)@.len() ==> #[trigger] final(head)@[k] <= old(head)@[k],
        forall|k: int| 1 <= k < final(head)@.len() ==> #[trigger] settled(final(head)@, old(head)@, k, a, b, i as int),
        forall|t: int| r_index <= t < end ==> #[trigger] row_complete(final(head)@, old(head)@, r@[t].1 as int),
{
    let ghost h = head@;
    // drop the pairs of the rows already done
    let trailing_r = slice_from(r, r_index);
    let compare = |lhs: &(usize, usize)| -> (o: Ordering)
        ensures
            o == (if lhs.0 < i { Ordering::Less } else if lhs.0 > i { Ordering::Greater } else { Ordering::Equal }),
        { lhs.0.cmp(&i) };
    proof {
        assert forall|x: int, y: int, ox: Ordering, oy: Ordering|
            0 <= x <= y < trailing_r@.len() && #[trigger] compare.ensures((&trailing_r@[x],), ox)
                && #[trigger] compare.ensures((&trailing_r@[y],), oy) implies rank(ox) <= rank(oy) by {
            assert(trailing_r@[x] == r@[r_index + x]);
            assert(trailing_r@[y] == r@[r_index + y]);
        }
    }
    let skip = match lower_bound_by(trailing_r, compare) {
        Some(k) => k,
        None => 0,
    };
    proof {
        if skip > 0 {
            assert(trailing_r@[skip - 1] == r@[r_index + skip - 1]);
        }
    }
    let mut idx = r_index + skip;
    // iterate over the pairs of this row
    while idx != r.len() && r[idx].0 == i
        invariant
            1 <= i <= a.len() < usize::MAX,
            b.len() < usize::MAX,
            forall|t: int| 0 <= t < r@.len() ==> pair_ok(a, b, #[trigger] r@[t]),
            forall|t: int, u: int|
                0 <= t < u < r@.len() && (#[trigger] r@[t]).0 == (#[trigger] r@[u]).0 ==> r@[t].1 > r@[u].1,
            row_span(r@, i as int, r_index as int),
            r_index <= idx <= r@.len(),
            forall|t: int| r_index <= t < idx ==> (#[trigger] r@[t]).0 == i,
            heads_ok(head@),
            heads_ok(h),
            head@.len() >= h.len(),
            idx == r_index ==> head@ == h,
            forall|k: int| 0 <= k < h.len() ==> #[trigger] head@[k] <= h[k],
            forall|k: int| 1 <= k < head@.len() ==> #[trigger] settled(head@, h, k, a, b, i as int),
            idx > r_index ==> forall|k: int|
                1 <= k < head@.len() && !(k < h.len() && head@[k] == h[k]) ==> #[trigger] head@[k] >= r@[idx
                    - 1].1,
            forall|t: int| r_index <= t < idx ==> #[trigger] row_complete(head@, h, r@[t].1 as int),
        decreases r@.len() - idx,
    {
        let j = r[idx].1;
        let ghost g = head@;
        proof {
            assert(pair_ok(a, b, r@[idx as int]));
            if idx > r_index {
                assert(r@[idx - 1].0 == r@[idx as int].0);
            }
            assert forall|x: int, y: int| 0 <= x <= y < head@.len() implies rank(
                #[trigger] head@[x].cmp_spec(&j),
            ) <= rank(#[trigger] head@[y].cmp_spec(&j)) by {
                if x < y {
                    assert(head@[x] < head@[y]);
                }
            }
        }
        let ghost s: int;
        match lower_bound(j, head.as_slice()) {
            Some(successor) => {
                proof {
                    s = successor as int;
                    assert(g[0].cmp_spec(&j) == Ordering::Less);
                    if successor + 1 < g.len() {
                        assert(g[successor as int] < g[successor + 1]);
                    }
                    assert(g[successor - 1].cmp_spec(&j) == Ordering::Less);
                }
                head.set(successor, j);
            },
            None => {
                proof {
                    s = g.len() as int;
                    assert(g[g.len() - 1].cmp_spec(&j) == Ordering::Less);
                }
                head.push(j);
            },
        }
        proof {
            // the head below the new one did not change in this row
            assert(g[s - 1] < j);
            if s - 1 >= 1 && !(s - 1 < h.len() && g[s - 1] == h[s - 1]) {
                assert(settled(g, h, s - 1, a, b, i as int));
                assert(g[s - 1] >= r@[idx - 1].1);
            }
            assert(s - 1 < h.len() && g[s - 1] == h[s - 1]);
            assert forall|x: int, y: int| 0 <= x < y < head@.len() implies head@[x] < head@[y] by {
                if x == s {
                    if y < g.len() {
                        assert(g[x] < g[y]);
                    }
                } else if y == s {
                    assert(g[x].cmp_spec(&j) == Ordering::Less);
                } else {
                    assert(g[x] < g[y]);
                }
            }
            assert forall|k: int| 1 <= k < head@.len() implies #[trigger] settled(head@, h, k, a, b, i as int) by {
                if k != s {
                    assert(settled(g, h, k, a, b, i as int));
                    assert(head@[k] == g[k]);
                }
            }
            assert forall|k: int| 0 <= k < h.len() implies #[trigger] head@[k] <= h[k] by {
                if k != s {
                    assert(head@[k] == g[k]);
                }
                assert(g[k] <= h[k]);
            }
            assert forall|k: int|
                1 <= k < head@.len() && !(k < h.len() && head@[k] == h[k]) implies #[trigger] head@[k] >= r@[idx
                as int].1 by {
                if k != s {
                    assert(head@[k] == g[k]);
                    if idx > r_index {
                        assert(g[k] >= r@[idx - 1].1);
                    }
                }
            }
            assert forall|t: int| r_index <= t < idx + 1 implies #[trigger] row_complete(head@, h, r@[t].1 as int) by {
                let jt = r@[t].1 as int;
                assert forall|k: int| 1 <= k && k - 1 < h.len() && #[trigger] h[k - 1] < jt implies k < head@.len()
                    && head@[k] <= jt by {
                    if t < idx {
                        assert(row_complete(g, h, jt));
                        assert(k < g.len() && g[k] <= jt);
                        if k == s {
                            assert(head@[k] == j);
                        } else {
                            assert(head@[k] == g[k]);
                        }
                    } else {
                        assert(g[k - 1] <= h[k - 1]);
                        if k < s {
                            assert(g[k].cmp_spec(&j) == Ordering::Less);
                            assert(head@[k] == g[k]);
                        } else if k > s {
                            assert(g[s] <= g[k - 1]);
                        }
                    }
                }
            }
        }
        idx = idx + 1;
    }
    proof {
        assert forall|t: int| 0 <= t < idx implies (#[trigger] r@[t]).0 < i + 1 by {
            if t >= r_index {
                assert(r@[t].0 == i);
            }
        }
        assert forall|t: int| idx <= t < r@.len() implies (#[trigger] r@[t]).0 >= i + 1 by {
            assert(r@[idx as int].0 >= i);
            assert(r@[idx as int].0 <= r@[t].0);
        }
    }
    idx
}

/// One longest common subsequence of `a_string` and `b_string` by the Hunt-Szymanski
/// algorithm, which is fast when few pairs of items match. Items are taken from `b_string`.
pub fn lcs_hunt_szymanski<T: Symbol>(a_string: &[T], b_string: &[T]) -> (r: Vec<T>)
    requires
        a_string@.len() < usize::MAX,
        b_string@.len() < usize::MAX,
    ensures
        is_subseq(keys(r@), keys(a_string@)),
        is_subseq(keys(r@), keys(b_string@)),
        forall|c: Seq<Seq<u8>>|
            is_subseq(c, keys(a_string@)) && #[trigger] is_subseq(c, keys(b_string@)) ==> c.len()
                <= r@.len(),
        r@.len() == lcs_length(a_string@, b_string@, a_string@.len() as int, b_string@.len() as int),
{
    let ghost a = a_string@;
    let ghost b = b_string@;
    // 1. the coordinates of all pairs of matching items
    let r = matching_characters_coordinates(a_string, b_string);
    proof {
        lemma_matching_pairs(a, b, a.len() as int);
        lemma_matching_pairs_rows(a, b, a.len() as int);
        assert forall|j: int| 0 <= j <= b.len() implies #[trigger] lcs_length(a, b, 0, j) < 1 && 0 <= j by {}
    }
    // 2. the head indices of the rows of the dynamic programming matrix, and its nodes
    let mut head_indices: Vec<usize> = Vec::with_capacity(a_string.len());
    head_indices.push(0);
    let a_len = a_string.len();
    let mut r_index: usize = 0;
    let mut nodes: Vec<(usize, usize, usize)> = vec![(0, 0, 0)];
    let ghost mut pred: Seq<int> = seq![0int];
    let ghost mut wh: Seq<int> = seq![0int];
    let mut i: usize = 1;
    while i <= a_len
        invariant
            a == a_string@,
            b == b_string@,
            a_len == a.len() < usize::MAX,
            b.len() < usize::MAX,
            r@ == matching_pairs(a, b, a.len() as int),
            forall|t: int| 0 <= t < r@.len() ==> pair_ok(a, b, #[trigger] r@[t]),
            forall|t: int, u: int| 0 <= t <= u < r@.len() ==> (#[trigger] r@[t]).0 <= (#[trigger] r@[u]).0,
            forall|t: int, u: int|
                0 <= t < u < r@.len() && (#[trigger] r@[t]).0 == (#[trigger] r@[u]).0 ==> r@[t].1 > r@[u].1,
            1 <= i <= a_len + 1,
            row_span(r@, i as int, r_index as int),
            heads_ok(head_indices@),
            heads_complete(head_indices@, a, b, i - 1),
            nodes@.len() >= 1,
            pred.len() == nodes@.len(),
            wh.len() == head_indices@.len(),
            forall|t: int| 1 <= t < nodes@.len() ==> node_ok(a, b, #[trigger] nodes@[t]) && nodes@[t].0 < i,
            forall|t: int|
                1 <= t < nodes@.len() && (#[trigger] nodes@[t]).2 >= 2 ==> 1 <= pred[t] < t && nodes@[pred[t]].0
                    < nodes@[t].0 && nodes@[pred[t]].1 < nodes@[t].1 && nodes@[pred[t]].2 == nodes@[t].2 - 1,
            forall|k: int|
                1 <= k < head_indices@.len() ==> 1 <= #[trigger] wh[k] < nodes@.len() && nodes@[wh[k]].1
                    == head_indices@[k] && nodes@[wh[k]].2 == k,
        decreases a_len + 1 - i,
    {
        let prev_row_head_indices = copy_indices(&head_indices);
        let ghost h = head_indices@;
        let ghost wh0 = wh;
        let ghost row_start = r_index as int;
        r_index = process_row::<T>(&mut head_indices, &r, r_index, i, Ghost(a), Ghost(b));
        proof {
            // the heads now cover row i
            let g = head_indices@;
            assert forall|j: int| 0 <= j <= b.len() implies #[trigger] lcs_length(a, b, i as int, j) < g.len()
                && g[lcs_length(a, b, i as int, j) as int] <= j by {
                let l = lcs_length(a, b, i as int, j);
                assert(lcs_length(a, b, i - 1, j) < h.len());
                if l >= 1 {
                    let z = lemma_last_match(a, b, i as int, j, l);
                    if z == 0 {
                        let l0 = lcs_length(a, b, i - 1, j);
                        if l < l0 {
                            assert(h[l as int] < h[l0 as int]);
                        }
                        assert(g[l as int] <= h[l as int]);
                    } else {
                        let l1 = lcs_length(a, b, i - 1, z - 1);
                        assert(lcs_length(a, b, i - 1, z - 1) < h.len());
                        if l - 1 < l1 {
                            assert(h[l - 1] < h[l1 as int]);
                        }
                        let t = lemma_matching_pairs_find(a, b, a.len() as int, i as int, z);
                        assert(r@[t].0 == i);
                        assert(row_start <= t < r_index);
                        assert(row_complete(g, h, r@[t].1 as int));
                        assert(h[l - 1] < z);
                        if l < g.len() - 1 {
                            assert(g[l as int] < g[g.len() - 1]);
                        }
                    }
                }
            }
        }
        // the nodes of this row: the blocks whose head index changed
        let block_count = head_indices.len();
        let prev_node_block_count = prev_row_head_indices.len();
        proof {
            wh = wh + Seq::new((block_count - wh.len()) as nat, |x: int| 0int);
        }
        let mut block_index: usize = 0;
        while block_index < block_count
            invariant
                a == a_string@,
                b == b_string@,
                1 <= i <= a_len,
                a_len == a.len() < usize::MAX,
                block_count == head_indices@.len(),
                prev_node_block_count == prev_row_head_indices@.len(),
                prev_row_head_indices@ == h,
                heads_ok(head_indices@),
                heads_ok(h),
                head_indices@.len() >= h.len(),
                forall|k: int| 1 <= k < head_indices@.len() ==> #[trigger] settled(head_indices@, h, k, a, b, i as int),
                nodes@.len() >= 1,
                pred.len() == nodes@.len(),
                wh.len() == head_indices@.len(),
                wh0.len() == h.len(),
                block_index <= block_count,
                forall|t: int| 1 <= t < nodes@.len() ==> node_ok(a, b, #[trigger] nodes@[t]) && nodes@[t].0 < i + 1,
                forall|t: int|
                    1 <= t < nodes@.len() && (#[trigger] nodes@[t]).2 >= 2 ==> 1 <= pred[t] < t && nodes@[pred[t]].0
                        < nodes@[t].0 && nodes@[pred[t]].1 < nodes@[t].1 && nodes@[pred[t]].2 == nodes@[t].2 - 1,
                forall|k: int|
                    1 <= k < h.len() ==> 1 <= #[trigger] wh0[k] < nodes@.len() && nodes@[wh0[k]].1 == h[k]
                        && nodes@[wh0[k]].2 == k && nodes@[wh0[k]].0 < i,
                forall|k: int|
                    1 <= k < block_index ==> 1 <= #[trigger] wh[k] < nodes@.len() && nodes@[wh[k]].1
                        == head_indices@[k] && nodes@[wh[k]].2 == k,
            decreases block_count - block_index,
        {
            if block_index >= prev_node_block_count || head_indices[block_index]
                != prev_row_head_indices[block_index] {
                let k = block_index;
                proof {
                    if k == 0 {
                        assert(head_indices@[0] == h[0]);
                    }
                    assert(settled(head_indices@, h, k as int, a, b, i as int));
                    if k >= 2 {
                        assert(nodes@[wh0[k - 1]].0 < i);
                    }
                    pred = pred.push(if k >= 2 { wh0[k - 1] } else { 0 });
                    wh = wh.update(k as int, nodes@.len() as int);
                }
                nodes.push((i, head_indices[block_index], block_index));
            } else {
                proof {
                    if block_index >= 1 {
                        wh = wh.update(block_index as int, wh0[block_index as int]);
                    }
                }
            }
            block_index = block_index + 1;
        }
        i = i + 1;
    }
    // 3. trace the subsequence back from a node of the last block
    let top = head_indices.len() - 1;
    let mut char_indices: Vec<usize> = Vec::new();
    let ghost mut rows: Seq<int> = Seq::empty();
    let mut active_node_index: usize = 0;
    if top > 0 {
        let mut s = nodes.len() - 1;
        while nodes[s].2 != top
            invariant
                wh.len() == head_indices@.len(),
                top == head_indices@.len() - 1 >= 1,
                1 <= wh[top as int] <= s < nodes@.len(),
                nodes@[wh[top as int]].2 == top,
            decreases s,
        {
            s = s - 1;
        }
        active_node_index = s;
    }
    while active_node_index > 0
        invariant
            a == a_string@,
            b == b_string@,
            active_node_index < nodes@.len(),
            pred.len() == nodes@.len(),
            forall|t: int| 1 <= t < nodes@.len() ==> node_ok(a, b, #[trigger] nodes@[t]),
            forall|t: int|
                1 <= t < nodes@.len() && (#[trigger] nodes@[t]).2 >= 2 ==> 1 <= pred[t] < t && nodes@[pred[t]].0
                    < nodes@[t].0 && nodes@[pred[t]].1 < nodes@[t].1 && nodes@[pred[t]].2 == nodes@[t].2 - 1,
            rows.len() == char_indices@.len(),
            active_node_index > 0 ==> nodes@[active_node_index as int].2 + rows.len() == top,
            active_node_index == 0 ==> rows.len() == top,
            forall|t: int|
                0 <= t < rows.len() ==> 1 <= #[trigger] rows[t] <= a.len() && 1 <= char_indices@[t] <= b.len()
                    && a[rows[t] - 1].key() == b[char_indices@[t] - 1].key(),
            forall|t: int, u: int| 0 <= t < u < rows.len() ==> rows[u] < rows[t] && char_indices@[u] < char_indices@[t],
            active_node_index > 0 && rows.len() > 0 ==> nodes@[active_node_index as int].0 < rows.last()
                && nodes@[active_node_index as int].1 < char_indices@.last(),
        decreases active_node_index,
    {
        let active_node = nodes[active_node_index];
        let ghost ci0 = char_indices@;
        let ghost rows0 = rows;
        let ghost act = active_node_index as int;
        char_indices.push(active_node.1);
        proof {
            assert(node_ok(a, b, nodes@[active_node_index as int]));
            rows = rows.push(active_node.0 as int);
            assert forall|t: int, u: int| 0 <= t < u < rows.len() implies rows[u] < rows[t]
                && char_indices@[u] < char_indices@[t] by {
                if u == rows.len() - 1 {
                    if t < u - 1 {
                        assert(rows0[t] > rows0[u - 1]);
                        assert(ci0[t] > ci0[u - 1]);
                    }
                } else {
                    assert(rows[u] == rows0[u] && rows[t] == rows0[t]);
                }
            }
            assert forall|t: int| 0 <= t < rows.len() implies 1 <= #[trigger] rows[t] <= a.len() && 1 <= char_indices@[t]
                <= b.len() && a[rows[t] - 1].key() == b[char_indices@[t] - 1].key() by {
                if t < rows.len() - 1 {
                    assert(rows[t] == rows0[t]);
                    assert(char_indices@[t] == ci0[t]);
                }
            }
        }
        let next_active_block_index = active_node.2 - 1;
        let mut node_index = active_node_index - 1;
        while node_index > 0
            invariant
                node_index < active_node_index < nodes@.len(),
                forall|t: int|
                    node_index < t < active_node_index ==> !((#[trigger] nodes@[t]).0 < active_node.0 && nodes@[t].1
                        < active_node.1 && nodes@[t].2 == next_active_block_index),
            ensures
                node_index > 0 ==> nodes@[node_index as int].0 < active_node.0 && nodes@[node_index as int].1
                    < active_node.1 && nodes@[node_index as int].2 == next_active_block_index,
                node_index == 0 ==> forall|t: int|
                    0 < t < active_node_index ==> !((#[trigger] nodes@[t]).0 < active_node.0 && nodes@[t].1
                        < active_node.1 && nodes@[t].2 == next_active_block_index),
            decreases node_index,
        {
            let node = nodes[node_index];
            if node.0 < active_node.0 && node.1 < active_node.1 && node.2 == next_active_block_index {
                break;
            }
            node_index = node_index - 1;
        }
        proof {
            if active_node.2 >= 2 {
                let p = pred[act];
                assert(nodes@[p].2 == next_active_block_index);
            } else if node_index > 0 {
                assert(node_ok(a, b, nodes@[node_index as int]));
            }
        }
        active_node_index = node_index;
    }
    // the items, in order
    let mut lcs: Vec<T> = Vec::with_capacity(nodes.len());
    let mut k: usize = char_indices.len();
    let ghost n = char_indices@.len();
    proof {
        assert forall|t: int| 0 <= t < n implies 1 <= #[trigger] char_indices@[t] <= b.len() by {
            assert(1 <= rows[t]);
        }
    }
    while k > 0
        invariant
            a == a_string@,
            b == b_string@,
            k <= n == char_indices@.len() == rows.len(),
            forall|t: int| 0 <= t < n ==> 1 <= #[trigger] char_indices@[t] <= b.len(),
            forall|t: int|
                0 <= t < rows.len() ==> 1 <= #[trigger] rows[t] <= a.len() && 1 <= char_indices@[t] <= b.len()
                    && a[rows[t] - 1].key() == b[char_indices@[t] - 1].key(),
            forall|t: int, u: int| 0 <= t < u < rows.len() ==> rows[u] < rows[t] && char_indices@[u] < char_indices@[t],
            lcs@.len() == n - k,
            forall|t: int| 0 <= t < n - k ==> #[trigger] lcs@[t].key() == b[char_indices@[n - 1 - t] - 1].key(),
        decreases k,
    {
        k = k - 1;
        let item = b_string[char_indices[k] - 1].duplicate();
        lcs.push(item);
    }
    proof {
        let pa = Seq::new(n, |t: int| rows[n - 1 - t] - 1);
        let pb = Seq::new(n, |t: int| char_indices@[n - 1 - t] - 1);
        assert forall|t: int| 0 <= t < n implies keys(lcs@)[t] == keys(a)[pa[t]] && keys(lcs@)[t] == keys(b)[pb[t]] by {
            assert(lcs@[t].key() == b[char_indices@[n - 1 - t] - 1].key());
            assert(1 <= rows[n - 1 - t]);
        }
        assert forall|t: int, u: int| 0 <= t < u < n implies pa[t] < pa[u] && pb[t] < pb[u] by {
            assert(rows[n - 1 - t] < rows[n - 1 - u] || n - 1 - u == n - 1 - t);
        }
        assert(embeds(keys(lcs@), keys(a), pa));
        assert(embeds(keys(lcs@), keys(b), pb));
        lemma_embeds_subseq(keys(lcs@), keys(a), pa);
        lemma_embeds_subseq(keys(lcs@), keys(b), pb);
        // as long as the heads say, and no common subsequence is longer
        lemma_lcs_length_is_longest(a, b);
        assert(lcs_length(a, b, a.len() as int, b.len() as int) < head_indices@.len());
        assert(keys(lcs@).len() == lcs@.len());
    }
    lcs
}

/// A node `(row, column, block)` of the matrix: a pair of equal items, in a block above 0.
pub open spec fn node_ok<T: Symbol>(a: Seq<T>, b: Seq<T>, n: (usize, usize, usize)) -> bool {
    &&& pair_ok(a, b, (n.0, n.1))
    &&& n.2 >= 1
}

/// A copy of the head indices.
fn copy_indices(v: &Vec<usize>) -> (r: Vec<usize>)
    ensures
        r@ == v@,
{
    let r = v.clone();
    proof {
        assert(r@ =~= v@);
    }
    r
}

/// The pairs from `start` on.
fn slice_from(v: &Vec<(usize, usize)>, start: usize) -> (r: &[(usize, usize)])
    requires
        start <= v@.len(),
    ensures
        r@ == v@.subrange(start as int, v@.len() as int),
{
    &v.as_slice()[start..v.len()]
}

/// Within one row the pairs come by strictly decreasing second coordinate, each at most
/// `col`; and every match of `a[row]` below `col` is among them.
proof fn lemma_row_pairs_order<T: Symbol>(a: Seq<T>, b: Seq<T>, row: int, col: int)
    requires
        0 <= row < a.len() < usize::MAX,
        col <= b.len() < usize::MAX,
    ensures
        forall|t: int, u: int|
            0 <= t < u < row_pairs(a, b, row, col).len() ==> (#[trigger] row_pairs(a, b, row, col)[t]).1
                > (#[trigger] row_pairs(a, b, row, col)[u]).1,
        forall|t: int|
            0 <= t < row_pairs(a, b, row, col).len() ==> (#[trigger] row_pairs(a, b, row, col)[t]).1 <= col,
    decreases col,
{
    if col > 0 {
        lemma_row_pairs_order(a, b, row, col - 1);
        lemma_row_pairs(a, b, row, col - 1);
        let head = if a[row].key() == b[col - 1].key() {
            seq![((row + 1) as usize, col as usize)]
        } else {
            Seq::empty()
        };
        let rest = row_pairs(a, b, row, col - 1);
        assert(row_pairs(a, b, row, col) == head + rest);
        assert forall|t: int| 0 <= t < (head + rest).len() implies (#[trigger] (head + rest)[t]).1 <= col by {
            if t >= head.len() {
                assert((head + rest)[t] == rest[t - head.len()]);
            }
        }
        assert forall|t: int, u: int| 0 <= t < u < (head + rest).len() implies (#[trigger] (head + rest)[t]).1
            > (#[trigger] (head + rest)[u]).1 by {
            assert((head + rest)[u] == rest[u - head.len()]);
            if t >= head.len() {
                assert((head + rest)[t] == rest[t - head.len()]);
            }
        }
    }
}

/// Where in `row_pairs(a, b, row, col)` the match of `a[row]` with `b[j - 1]` stands.
proof fn lemma_row_pairs_find<T: Symbol>(a: Seq<T>, b: Seq<T>, row: int, col: int, j: int) -> (t: int)
    requires
        0 <= row < a.len() < usize::MAX,
        col <= b.len() < usize::MAX,
        1 <= j <= col,
        a[row].key() == b[j - 1].key(),
    ensures
        0 <= t < row_pairs(a, b, row, col).len(),
        row_pairs(a, b, row, col)[t] == ((row + 1) as usize, j as usize),
    decreases col,
{
    let head = if a[row].key() == b[col - 1].key() {
        seq![((row + 1) as usize, col as usize)]
    } else {
        Seq::empty()
    };
    let rest = row_pairs(a, b, row, col - 1);
    assert(row_pairs(a, b, row, col) == head + rest);
    if j == col {
        assert((head + rest)[0] == head[0]);
        0
    } else {
        let t = lemma_row_pairs_find(a, b, row, col - 1, j);
        assert((head + rest)[t + head.len()] == rest[t]);
        t + head.len()
    }
}

/// The order of the pairs of one row, and where a match stands among all pairs.
proof fn lemma_matching_pairs_rows<T: Symbol>(a: Seq<T>, b: Seq<T>, rows: int)
    requires
        0 <= rows <= a.len() < usize::MAX,
        b.len() < usize::MAX,
    ensures
        forall|t: int, u: int|
            0 <= t < u < matching_pairs(a, b, rows).len() && (#[trigger] matching_pairs(a, b, rows)[t]).0
                == (#[trigger] matching_pairs(a, b, rows)[u]).0 ==> matching_pairs(a, b, rows)[t].1
                > matching_pairs(a, b, rows)[u].1,
    decreases rows,
{
    if rows > 0 {
        lemma_matching_pairs_rows(a, b, rows - 1);
        lemma_matching_pairs(a, b, rows - 1);
        lemma_row_pairs(a, b, rows - 1, b.len() as int);
        lemma_row_pairs_order(a, b, rows - 1, b.len() as int);
        let p = matching_pairs(a, b, rows - 1);
        let q = row_pairs(a, b, rows - 1, b.len() as int);
        assert(matching_pairs(a, b, rows) == p + q);
        assert forall|t: int, u: int|
            0 <= t < u < (p + q).len() && (#[trigger] (p + q)[t]).0 == (#[trigger] (p + q)[u]).0 implies (p
            + q)[t].1 > (p + q)[u].1 by {
            if u < p.len() {
                assert((p + q)[u] == p[u] && (p + q)[t] == p[t]);
            } else if t < p.len() {
                assert((p + q)[u] == q[u - p.len()] && (p + q)[t] == p[t]);
            } else {
                assert((p + q)[u] == q[u - p.len()] && (p + q)[t] == q[t - p.len()]);
            }
        }
    }
}

proof fn lemma_matching_pairs_find<T: Symbol>(a: Seq<T>, b: Seq<T>, rows: int, i: int, j: int) -> (t: int)
    requires
        0 <= rows <= a.len() < usize::MAX,
        b.len() < usize::MAX,
        1 <= i <= rows,
        1 <= j <= b.len(),
        a[i - 1].key() == b[j - 1].key(),
    ensures
        0 <= t < matching_pairs(a, b, rows).len(),
        matching_pairs(a, b, rows)[t] == (i as usize, j as usize),
    decreases rows,
{
    let p = matching_pairs(a, b, rows - 1);
    let q = row_pairs(a, b, rows - 1, b.len() as int);
    assert(matching_pairs(a, b, rows) == p + q);
    if i == rows {
        let t = lemma_row_pairs_find(a, b, rows - 1, b.len() as int, j);
        assert((p + q)[t + p.len()] == q[t]);
        t + p.len()
    } else {
        let t = lemma_matching_pairs_find(a, b, rows - 1, i, j);
        assert((p + q)[t] == p[t]);
        t
    }
}

} // verus!
