//! The value of a given rank among a list of numbers, and so the median.
//!
//! The rank of a value is counted from 0 in ascending order: a value has
//! rank `k` where at most `k` of the numbers are below it and more than `k`
//! are at most it. Every rank below the length of the list is the rank of
//! exactly one value.

use vstd::prelude::*;

verus! {

/// The number of the first `n` values that are below `x`.
pub open spec fn count_below(values: Seq<u32>, x: u32, n: int) -> int
    decreases n,
{
    if n <= 0 {
        0
    } else {
        count_below(values, x, n - 1) + (if values[n - 1] < x { 1int } else { 0int })
    }
}

/// The number of the first `n` values that are at most `x`.
pub open spec fn count_at_most(values: Seq<u32>, x: u32, n: int) -> int
    decreases n,
{
    if n <= 0 {
        0
    } else {
        count_at_most(values, x, n - 1) + (if values[n - 1] <= x { 1int } else { 0int })
    }
}

/// Whether `x` has rank `k`, counted from 0, in ascending order.
pub open spec fn has_rank(values: Seq<u32>, k: int, x: u32) -> bool {
    count_below(values, x, values.len() as int) <= k < count_at_most(values, x, values.len() as int)
}

/// Whether index `i` is the first whose value has rank `k`.
pub open spec fn first_of_rank(values: Seq<u32>, k: int, i: int) -> bool {
    0 <= i < values.len() && has_rank(values, k, values[i]) && forall|j: int|
        0 <= j < i ==> !has_rank(values, k, #[trigger] values[j])
}

/// The first index whose value has rank `k`.
pub open spec fn index_of_rank(values: Seq<u32>, k: int) -> int {
    choose|i: int| #[trigger] first_of_rank(values, k, i)
}

/// The value of rank `k`, if there is one.
pub open spec fn rank_value(values: Seq<u32>, k: int) -> Option<u32> {
    if exists|i: int| #[trigger] first_of_rank(values, k, i) {
        Some(values[index_of_rank(values, k)])
    } else {
        None
    }
}

/// The median: the value of rank `n / 2` among `n` values.
pub open spec fn median_spec(values: Seq<u32>) -> Option<u32> {
    rank_value(values, values.len() as int / 2)
}

proof fn lemma_counts_ordered(values: Seq<u32>, x: u32, y: u32, n: int)
    requires
        x < y,
    ensures
        count_at_most(values, x, n) <= count_below(values, y, n),
    decreases n,
{
    if n > 0 {
        lemma_counts_ordered(values, x, y, n - 1);
    }
}

/// At most one value has a given rank.
pub proof fn lemma_rank_unique(values: Seq<u32>, k: int, x: u32, y: u32)
    requires
        has_rank(values, k, x),
        has_rank(values, k, y),
    ensures
        x == y,
{
    if x < y {
        lemma_counts_ordered(values, x, y, values.len() as int);
    } else if y < x {
        lemma_counts_ordered(values, y, x, values.len() as int);
    }
}

proof fn lemma_none_below(values: Seq<u32>, x: u32, n: int)
    requires
        0 <= n <= values.len(),
        forall|j: int| 0 <= j < n ==> values[j] >= x,
    ensures
        count_below(values, x, n) == 0,
    decreases n,
{
    if n > 0 {
        lemma_none_below(values, x, n - 1);
    }
}

proof fn lemma_all_at_most(values: Seq<u32>, x: u32, n: int)
    requires
        0 <= n <= values.len(),
        forall|j: int| 0 <= j < n ==> values[j] <= x,
    ensures
        count_at_most(values, x, n) == n,
    decreases n,
{
    if n > 0 {
        lemma_all_at_most(values, x, n - 1);
    }
}

proof fn lemma_counts_meet(values: Seq<u32>, x: u32, y: u32, n: int)
    requires
        0 <= n <= values.len(),
        x < y,
        forall|j: int| 0 <= j < n ==> !(x < values[j] && values[j] < y),
    ensures
        count_below(values, y, n) == count_at_most(values, x, n),
    decreases n,
{
    if n > 0 {
        lemma_counts_meet(values, x, y, n - 1);
    }
}

/// The index of a smallest of the first `n` values.
proof fn lemma_least(values: Seq<u32>, n: int) -> (m: int)
    requires
        0 < n <= values.len(),
    ensures
        0 <= m < n,
        forall|j: int| 0 <= j < n ==> values[m] <= values[j],
    decreases n,
{
    if n == 1 {
        0
    } else {
        let m = lemma_least(values, n - 1);
        if values[n - 1] < values[m] {
            n - 1
        } else {
            m
        }
    }
}

/// Among the first `n` values, the index of a largest of those that at
/// most `k` values are below, or -1 where there is none.
proof fn lemma_largest_among(values: Seq<u32>, k: int, n: int) -> (b: int)
    requires
        0 <= n <= values.len(),
    ensures
        -1 <= b < n,
        b >= 0 ==> count_below(values, values[b], values.len() as int) <= k,
        forall|j: int|
            0 <= j < n && count_below(values, values[j], values.len() as int) <= k ==> b >= 0 && values[j]
                <= values[b],
    decreases n,
{
    if n == 0 {
        -1
    } else {
        let b = lemma_largest_among(values, k, n - 1);
        if count_below(values, values[n - 1], values.len() as int) <= k && (b < 0 || values[n - 1] > values[b]) {
            n - 1
        } else {
            b
        }
    }
}

/// Among the first `n` values, the index of a smallest of those above `x`,
/// or -1 where there is none.
proof fn lemma_next_above(values: Seq<u32>, x: u32, n: int) -> (b: int)
    requires
        0 <= n <= values.len(),
    ensures
        -1 <= b < n,
        b >= 0 ==> values[b] > x,
        forall|j: int| 0 <= j < n && values[j] > x ==> b >= 0 && values[b] <= values[j],
    decreases n,
{
    if n == 0 {
        -1
    } else {
        let b = lemma_next_above(values, x, n - 1);
        if values[n - 1] > x && (b < 0 || values[n - 1] < values[b]) {
            n - 1
        } else {
            b
        }
    }
}

/// Every rank below the number of values is the rank of one of them.
pub proof fn lemma_rank_exists(values: Seq<u32>, k: int)
    requires
        0 <= k < values.len(),
    ensures
        rank_value(values, k) is Some,
        has_rank(values, k, rank_value(values, k)->Some_0),
{
    let n = values.len() as int;
    let least = lemma_least(values, n);
    lemma_none_below(values, values[least], n);
    let b = lemma_largest_among(values, k, n);
    assert(b >= 0) by {
        assert(count_below(values, values[least], n) <= k);
    }
    let x = values[b];
    if count_at_most(values, x, n) <= k {
        let j = lemma_next_above(values, x, n);
        if j < 0 {
            lemma_all_at_most(values, x, n);
        } else {
            let y = values[j];
            lemma_counts_meet(values, x, y, n);
            assert(count_below(values, y, n) <= k);
            assert(values[j] <= values[b]);
        }
    }
    assert(has_rank(values, k, x));
    let i = lemma_first_with_rank(values, k, b, b + 1);
    assert(first_of_rank(values, k, i));
    let chosen = index_of_rank(values, k);
    assert(first_of_rank(values, k, chosen));
}

/// The first index, among the first `n`, whose value has rank `k`, given
/// that index `seed` is one of them.
proof fn lemma_first_with_rank(values: Seq<u32>, k: int, seed: int, n: int) -> (i: int)
    requires
        0 <= seed < n <= values.len(),
        has_rank(values, k, values[seed]),
    ensures
        0 <= i <= seed,
        first_of_rank(values, k, i),
    decreases seed,
{
    if exists|j: int| 0 <= j < seed && has_rank(values, k, #[trigger] values[j]) {
        let j = choose|j: int| 0 <= j < seed && has_rank(values, k, #[trigger] values[j]);
        lemma_first_with_rank(values, k, j, n)
    } else {
        seed
    }
}

/// The value of rank `rank` among `values`.
pub fn value_of_rank(values: &[u32], rank: usize) -> (r: Option<u32>)
    ensures
        r == rank_value(values@, rank as int),
        rank < values@.len() ==> r is Some,
{
    let n = values.len();
    let mut i: usize = 0;
    while i < n
        invariant
            i <= n,
            n == values@.len(),
            forall|j: int| 0 <= j < i ==> !has_rank(values@, rank as int, #[trigger] values@[j]),
        decreases n - i,
    {
        let x = values[i];
        let mut below: usize = 0;
        let mut at_most: usize = 0;
        let mut k: usize = 0;
        while k < n
            invariant
                k <= n,
                n == values@.len(),
                below == count_below(values@, x, k as int),
                at_most == count_at_most(values@, x, k as int),
                below <= k,
                at_most <= k,
            decreases n - k,
        {
            if values[k] < x {
                below += 1;
            }
            if values[k] <= x {
                at_most += 1;
            }
            k += 1;
        }
        if below <= rank && rank < at_most {
            proof {
                assert(first_of_rank(values@, rank as int, i as int));
                let a = index_of_rank(values@, rank as int);
                assert(first_of_rank(values@, rank as int, a));
                if a < i {
                    assert(!has_rank(values@, rank as int, values@[a]));
                }
                if a > i {
                    assert(!has_rank(values@, rank as int, values@[i as int]));
                }
            }
            return Some(x);
        }
        i += 1;
    }
    proof {
        if exists|a: int| #[trigger] first_of_rank(values@, rank as int, a) {
            let a = index_of_rank(values@, rank as int);
            assert(!has_rank(values@, rank as int, values@[a]));
        }
        if rank < n {
            lemma_rank_exists(values@, rank as int);
        }
    }
    None
}

/// The median of `values`: the value of rank `n / 2` among `n` values, and
/// nothing where there is no value.
pub fn median(values: &[u32]) -> (r: Option<u32>)
    ensures
        r == median_spec(values@),
        r is Some <==> values@.len() > 0,
{
    let n = values.len();
    proof {
        if n == 0 {
            if exists|a: int| #[trigger] first_of_rank(values@, 0, a) {
                let a = index_of_rank(values@, 0);
                assert(first_of_rank(values@, 0, a));
            }
        }
    }
    value_of_rank(values, n / 2)
}

} // verus!
