use vstd::arithmetic::div_mod::*;
use vstd::arithmetic::mul::*;
use vstd::arithmetic::power::*;
use std::cmp::Ordering;
use vstd::prelude::*;
use vstd::std_specs::cmp::OrdSpec;

verus! {

/// `x` is `2^k` for some `k`.
pub open spec fn is_pow2(x: nat) -> bool
    decreases x,
{
    if x == 1 {
        true
    } else if x == 0 || x % 2 == 1 {
        false
    } else {
        is_pow2(x / 2)
    }
}

proof fn lemma_pow2_bit_trick(x: u32)
    requires
        x != 0,
    ensures
        (x & ((x - 1) as u32)) == 0 <==> is_pow2(x as nat),
    decreases x,
{
    if x == 1 {
        assert((1u32 & 0u32) == 0) by (bit_vector);
    } else if x % 2 == 1 {
        assert(x & 1 == 1 && x > 1 ==> (x & ((x - 1) as u32)) != 0) by (bit_vector);
        assert(x & 1 == 1) by (bit_vector)
            requires
                x % 2 == 1,
        ;
    } else {
        let h: u32 = x >> 1;
        assert(x & 1 == 0 && x >= 2 ==> ((x & ((x - 1) as u32)) == 0 <==> ((x >> 1) & (((x >> 1) - 1) as u32)) == 0))
            by (bit_vector);
        assert(x & 1 == 0) by (bit_vector)
            requires
                x % 2 == 0,
        ;
        assert(x >> 1 == x / 2) by (bit_vector);
        lemma_pow2_bit_trick(h);
    }
}

/// Tells whether `x` is a power of two; zero is not in the domain.
pub fn is_power_of_two(x: u32) -> (r: bool)
    requires
        x != 0,
    ensures
        r == is_pow2(x as nat),
{
    proof {
        lemma_pow2_bit_trick(x);
    }
    x & (x - 1) == 0
}

/// `base^exponent mod modulus`, computed without leaving 64-bit range.
pub fn mod_power(base: u32, exponent: u32, modulus: u32) -> (r: u32)
    requires
        modulus != 0,
    ensures
        r == pow(base as int, exponent as nat) % (modulus as int),
{
    if modulus == 1 {
        return 0;
    }
    let mut c: u64 = 1;
    let b: u64 = base as u64;
    let m: u64 = modulus as u64;
    let mut i: u32 = 0;
    proof {
        reveal(pow);
        lemma_small_mod(1, m as nat);
    }
    while i < exponent
        invariant
            1 < m <= u32::MAX,
            b == base,
            m == modulus,
            i <= exponent,
            c < m,
            c == pow(base as int, i as nat) % (m as int),
        decreases exponent - i,
    {
        proof {
            lemma_mul_upper_bound(c as int, (m - 1) as int, b as int, u32::MAX as int);
            lemma_mul_mod_noop_left(pow(base as int, i as nat), b as int, m as int);
            reveal(pow);
            assert(pow(base as int, (i + 1) as nat) == base * pow(base as int, i as nat));
            lemma_mul_is_commutative(base as int, pow(base as int, i as nat));
        }
        c = (c * b) % m;
        i = i + 1;
    }
    c as u32
}

/// Orders the outcomes of a comparison: `Less` before `Equal` before `Greater`.
pub open spec fn rank(o: Ordering) -> int {
    match o {
        Ordering::Less => 0,
        Ordering::Equal => 1,
        Ordering::Greater => 2,
    }
}

/// `compare` can be called on every item, and what it says of the items never decreases
/// from left to right (`Less`, then `Equal`, then `Greater`): the items are sorted with
/// respect to what `compare` looks for.
pub open spec fn sorted_by<T, F: Fn(&T) -> Ordering>(items: Seq<T>, compare: F) -> bool {
    &&& forall|i: int| 0 <= i < items.len() ==> #[trigger] compare.requires((&items[i],))
    &&& forall|i: int, j: int, oi: Ordering, oj: Ordering|
        0 <= i <= j < items.len() && #[trigger] compare.ensures((&items[i],), oi) && #[trigger] compare.ensures(
            (&items[j],),
            oj,
        ) ==> rank(oi) <= rank(oj)
}

/// `compare` says `o` of the item `x`.
pub open spec fn says<T, F: Fn(&T) -> Ordering>(compare: F, x: T, o: Ordering) -> bool {
    compare.ensures((&x,), o)
}

/// Finds an item for which `compare` says `Equal`, if any; any such index may come back.
pub fn binary_search_by<T, F>(sorted_items: &[T], compare: F) -> (r: Option<usize>)
    where
        F: Fn(&T) -> Ordering,
    requires
        sorted_by(sorted_items@, compare),
    ensures
        r matches Some(i) ==> i < sorted_items@.len() && says(compare, sorted_items@[i as int], Ordering::Equal),
        r is None ==> forall|i: int, o: Ordering|
            0 <= i < sorted_items@.len() && #[trigger] says(compare, sorted_items@[i], o) ==> o != Ordering::Equal,
{
    let mut low: usize = 0;
    let mut high: usize = sorted_items.len();
    while low < high
        invariant
            sorted_by(sorted_items@, compare),
            low <= high <= sorted_items@.len(),
            forall|i: int, o: Ordering| 0 <= i < low && #[trigger] says(compare, sorted_items@[i], o) ==> o == Ordering::Less,
            forall|i: int, o: Ordering| high <= i < sorted_items@.len() && #[trigger] says(compare, sorted_items@[i], o) ==> o == Ordering::Greater,
        decreases high - low,
    {
        let mid = low + (high - low) / 2;
        let mid_item = &sorted_items[mid];
        let o = compare(mid_item);
        match o {
            Ordering::Equal => {
                return Some(mid);
            },
            Ordering::Greater => {
                high = mid;
            },
            Ordering::Less => {
                low = mid + 1;
            },
        }
    }
    None
}

/// The lowest index whose item `compare` does not call `Less`, or `None` where it calls
/// every item `Less`.
pub fn lower_bound_by<T, F>(sorted_items: &[T], compare: F) -> (r: Option<usize>)
    where
        F: Fn(&T) -> Ordering,
    requires
        sorted_by(sorted_items@, compare),
    ensures
        r matches Some(i) ==> i < sorted_items@.len() && (forall|o: Ordering| #[trigger] says(compare, sorted_items@[i as int], o) ==> o != Ordering::Less),
        forall|j: int, o: Ordering|
            0 <= j < (match r { Some(i) => i as int, None => sorted_items@.len() as int }) && #[trigger] says(compare, sorted_items@[j], o) ==> o == Ordering::Less,
        ({
            let k = match r {
                Some(i) => i as int,
                None => sorted_items@.len() as int,
            };
            k > 0 ==> says(compare, sorted_items@[k - 1], Ordering::Less)
        }),
{
    let len = sorted_items.len();
    let mut low: usize = 0;
    let mut high: usize = len;
    while low < high
        invariant
            sorted_by(sorted_items@, compare),
            len == sorted_items@.len(),
            low <= high <= len,
            forall|i: int, o: Ordering| 0 <= i < low && #[trigger] says(compare, sorted_items@[i], o) ==> o == Ordering::Less,
            forall|i: int, o: Ordering| high <= i < len && #[trigger] says(compare, sorted_items@[i], o) ==> o != Ordering::Less,
            low > 0 ==> says(compare, sorted_items@[low - 1], Ordering::Less),
        decreases high - low,
    {
        let mid = low + (high - low) / 2;
        let mid_item = &sorted_items[mid];
        let o = compare(mid_item);
        match o {
            Ordering::Less => {
                low = mid + 1;
            },
            _ => {
                high = mid;
            },
        }
    }
    if low == len {
        None
    } else {
        Some(low)
    }
}

/// The lowest index whose item `compare` calls `Greater`, or `None` where it calls no item
/// `Greater`.
pub fn upper_bound_by<T, F>(sorted_items: &[T], compare: F) -> (r: Option<usize>)
    where
        F: Fn(&T) -> Ordering,
    requires
        sorted_by(sorted_items@, compare),
    ensures
        r matches Some(i) ==> i < sorted_items@.len() && (forall|o: Ordering| #[trigger] says(compare, sorted_items@[i as int], o) ==> o == Ordering::Greater),
        forall|j: int, o: Ordering|
            0 <= j < (match r { Some(i) => i as int, None => sorted_items@.len() as int }) && #[trigger] says(compare, sorted_items@[j], o) ==> o != Ordering::Greater,
{
    let len = sorted_items.len();
    let mut low: usize = 0;
    let mut high: usize = len;
    while low < high
        invariant
            sorted_by(sorted_items@, compare),
            len == sorted_items@.len(),
            low <= high <= len,
            forall|i: int, o: Ordering| 0 <= i < low && #[trigger] says(compare, sorted_items@[i], o) ==> o != Ordering::Greater,
            forall|i: int, o: Ordering| high <= i < len && #[trigger] says(compare, sorted_items@[i], o) ==> o == Ordering::Greater,
        decreases high - low,
    {
        let mid = low + (high - low) / 2;
        let mid_item = &sorted_items[mid];
        match compare(mid_item) {
            Ordering::Greater => {
                high = mid;
            },
            _ => {
                low = mid + 1;
            },
        }
    }
    if low == len {
        None
    } else {
        Some(low)
    }
}

/// The items are sorted with respect to `item`: those below it, then those equal to it,
/// then those above it.
pub open spec fn sorted_around<T: Ord>(items: Seq<T>, item: T) -> bool {
    forall|i: int, j: int|
        0 <= i <= j < items.len() ==> rank(#[trigger] items[i].cmp_spec(&item)) <= rank(
            #[trigger] items[j].cmp_spec(&item),
        )
}

/// Finds an item equal to `searched_item`, if any; any such index may come back.
pub fn binary_search<T: Ord>(searched_item: T, sorted_items: &[T]) -> (r: Option<usize>)
    requires
        T::obeys_cmp_spec(),
        sorted_around(sorted_items@, searched_item),
    ensures
        r matches Some(i) ==> i < sorted_items@.len() && sorted_items@[i as int].cmp_spec(&searched_item)
            == Ordering::Equal,
        r is None ==> forall|i: int|
            0 <= i < sorted_items@.len() ==> #[trigger] sorted_items@[i].cmp_spec(&searched_item)
                != Ordering::Equal,
{
    let mut low: usize = 0;
    let mut high: usize = sorted_items.len();
    while low < high
        invariant
            T::obeys_cmp_spec(),
            sorted_around(sorted_items@, searched_item),
            low <= high <= sorted_items@.len(),
            forall|i: int|
                0 <= i < low ==> #[trigger] sorted_items@[i].cmp_spec(&searched_item) == Ordering::Less,
            forall|i: int|
                high <= i < sorted_items@.len() ==> #[trigger] sorted_items@[i].cmp_spec(&searched_item)
                    == Ordering::Greater,
        decreases high - low,
    {
        let mid = low + (high - low) / 2;
        match sorted_items[mid].cmp(&searched_item) {
            Ordering::Equal => {
                return Some(mid);
            },
            Ordering::Greater => {
                high = mid;
            },
            Ordering::Less => {
                low = mid + 1;
            },
        }
    }
    None
}

/// The lowest index whose item is not below `item`, or `None` where every item is below it.
pub fn lower_bound<T: Ord>(item: T, sorted_items: &[T]) -> (r: Option<usize>)
    requires
        T::obeys_cmp_spec(),
        sorted_around(sorted_items@, item),
    ensures
        r matches Some(i) ==> i < sorted_items@.len() && sorted_items@[i as int].cmp_spec(&item)
            != Ordering::Less,
        forall|j: int|
            0 <= j < (match r {
                Some(i) => i as int,
                None => sorted_items@.len() as int,
            }) ==> #[trigger] sorted_items@[j].cmp_spec(&item) == Ordering::Less,
{
    let len = sorted_items.len();
    let mut low: usize = 0;
    let mut high: usize = len;
    while low < high
        invariant
            T::obeys_cmp_spec(),
            sorted_around(sorted_items@, item),
            len == sorted_items@.len(),
            low <= high <= len,
            forall|i: int| 0 <= i < low ==> #[trigger] sorted_items@[i].cmp_spec(&item) == Ordering::Less,
            forall|i: int| high <= i < len ==> #[trigger] sorted_items@[i].cmp_spec(&item) != Ordering::Less,
        decreases high - low,
    {
        let mid = low + (high - low) / 2;
        match sorted_items[mid].cmp(&item) {
            Ordering::Less => {
                low = mid + 1;
            },
            _ => {
                high = mid;
            },
        }
    }
    if low == len {
        None
    } else {
        Some(low)
    }
}

/// The lowest index whose item is above `item`, or `None` where no item is above it.
pub fn upper_bound<T: Ord>(item: T, sorted_items: &[T]) -> (r: Option<usize>)
    requires
        T::obeys_cmp_spec(),
        sorted_around(sorted_items@, item),
    ensures
        r matches Some(i) ==> i < sorted_items@.len() && sorted_items@[i as int].cmp_spec(&item)
            == Ordering::Greater,
        forall|j: int|
            0 <= j < (match r {
                Some(i) => i as int,
                None => sorted_items@.len() as int,
            }) ==> #[trigger] sorted_items@[j].cmp_spec(&item) != Ordering::Greater,
{
    let len = sorted_items.len();
    let mut low: usize = 0;
    let mut high: usize = len;
    while low < high
        invariant
            T::obeys_cmp_spec(),
            sorted_around(sorted_items@, item),
            len == sorted_items@.len(),
            low <= high <= len,
            forall|i: int| 0 <= i < low ==> #[trigger] sorted_items@[i].cmp_spec(&item) != Ordering::Greater,
            forall|i: int| high <= i < len ==> #[trigger] sorted_items@[i].cmp_spec(&item) == Ordering::Greater,
        decreases high - low,
    {
        let mid = low + (high - low) / 2;
        match sorted_items[mid].cmp(&item) {
            Ordering::Greater => {
                high = mid;
            },
            _ => {
                low = mid + 1;
            },
        }
    }
    if low == len {
        None
    } else {
        Some(low)
    }
}

} // verus!
