//! The median rule: the 64 transform coefficients of lowest frequency become the 64
//! bits of a hash. Bit `i` is set where coefficient `i` is not below the median of all
//! of them.
//!
//! Coefficients are given as integers that order as the coefficients do.

use vstd::prelude::*;
use vstd::relations::{sorted_by, total_ordering};
use vstd::seq_lib::lemma_sorted_unique;

verus! {

/// Where coefficient `i` of the low-frequency block stands among the 32×32
/// coefficients of a transform, these taken row by row. The block is the square of
/// eight rows and eight columns that begins at row 1 and column 1, behind the row and
/// the column of the lowest frequency; it is taken column by column.
pub open spec fn block_index(i: int) -> int {
    (1 + i % 8) * 32 + (1 + i / 8)
}

/// The order of the coefficients.
pub open spec fn at_most() -> spec_fn(i32, i32) -> bool {
    |a: i32, b: i32| a <= b
}

/// The coefficients in ascending order.
pub open spec fn ascending(coeffs: Seq<i32>) -> Seq<i32> {
    coeffs.sort_by(at_most())
}

/// Whether bit `i` of `hash` is set.
pub open spec fn bit(hash: u64, i: int) -> bool {
    (hash >> (i as u64)) & 1 == 1
}

/// The hash of the first `n` coefficients: bit `i` is set where `coeffs[i]` is at
/// least `median`, and no other bit is.
pub open spec fn hash_bits(coeffs: Seq<i32>, median: i32, n: nat) -> u64
    decreases n,
{
    if n == 0 {
        0
    } else {
        let low = hash_bits(coeffs, median, (n - 1) as nat);
        if coeffs[n - 1] >= median {
            low | (1u64 << ((n - 1) as u64))
        } else {
            low
        }
    }
}

/// `ascending` is what its name says: the same coefficients, each as often as
/// before, in ascending order.
pub proof fn lemma_ascending(coeffs: Seq<i32>)
    ensures
        ascending(coeffs).len() == coeffs.len(),
        ascending(coeffs).to_multiset() == coeffs.to_multiset(),
        forall|i: int, j: int|
            0 <= i < j < coeffs.len() ==> ascending(coeffs)[i] <= ascending(coeffs)[j],
{
    coeffs.lemma_sort_by_ensures(at_most());
    coeffs.to_multiset_ensures();
    ascending(coeffs).to_multiset_ensures();
    assert forall|i: int, j: int| 0 <= i < j < coeffs.len() implies ascending(coeffs)[i]
        <= ascending(coeffs)[j] by {
        assert(at_most()(ascending(coeffs)[i], ascending(coeffs)[j]));
    }
}

proof fn lemma_insert_to_multiset(s: Seq<i32>, p: int, x: i32)
    requires
        0 <= p <= s.len(),
    ensures
        s.insert(p, x).to_multiset() == s.to_multiset().insert(x),
{
    broadcast use vstd::multiset::group_multiset_axioms;

    let t = s.insert(p, x);
    assert(t.remove(p) =~= s);
    assert(t[p] == x);
    vstd::seq_lib::to_multiset_remove(t, p);
    t.to_multiset_ensures();
    assert(t.contains(x));
    assert(t.to_multiset() =~= s.to_multiset().insert(x));
}

/// The coefficients, sorted.
fn sorted_copy(coeffs: &[i32; 64]) -> (sorted: Vec<i32>)
    ensures
        sorted@ == ascending(coeffs@),
{
    let mut sorted: Vec<i32> = Vec::new();
    let mut i: usize = 0;
    proof {
        assert(coeffs@.take(0) =~= Seq::<i32>::empty());
    }
    while i < 64
        invariant
            i <= 64,
            coeffs@.len() == 64,
            sorted@.len() == i,
            sorted_by(sorted@, at_most()),
            sorted@.to_multiset() == coeffs@.take(i as int).to_multiset(),
        decreases 64 - i,
    {
        let x: i32 = coeffs[i];
        let mut p: usize = 0;
        while p < sorted.len() && sorted[p] <= x
            invariant
                p <= sorted@.len(),
                forall|j: int| 0 <= j < p ==> sorted@[j] <= x,
            decreases sorted@.len() - p,
        {
            p += 1;
        }
        let ghost before = sorted@;
        sorted.insert(p, x);
        proof {
            assert forall|a: int, b: int| 0 <= a < b < sorted@.len() implies at_most()(
                sorted@[a],
                sorted@[b],
            ) by {
                if b < p {
                    assert(at_most()(before[a], before[b]));
                } else if b == p {
                } else if a < p {
                    assert(at_most()(before[a], before[b - 1]));
                } else if a == p {
                    if p < b - 1 {
                        assert(at_most()(before[p as int], before[b - 1]));
                    }
                } else {
                    assert(at_most()(before[a - 1], before[b - 1]));
                }
            }
            lemma_insert_to_multiset(before, p as int, x);
            assert(coeffs@.take(i + 1) =~= coeffs@.take(i as int).push(x));
            vstd::seq_lib::to_multiset_build(coeffs@.take(i as int), x);
        }
        i += 1;
    }
    proof {
        assert(coeffs@.take(64) =~= coeffs@);
        assert(total_ordering(at_most()));
        coeffs@.lemma_sort_by_ensures(at_most());
        lemma_sorted_unique(sorted@, ascending(coeffs@), at_most());
    }
    sorted
}

/// The low-frequency block of a transform. The same order of the block serves for
/// the median and for the bits.
pub fn low_frequency_block(coeffs: &[i32; 1024]) -> (block: [i32; 64])
    ensures
        forall|i: int| 0 <= i < 64 ==> block@[i] == coeffs@[block_index(i)],
{
    let mut block: [i32; 64] = [0; 64];
    let mut i: usize = 0;
    while i < 64
        invariant
            i <= 64,
            forall|k: int| 0 <= k < i ==> block@[k] == coeffs@[block_index(k)],
        decreases 64 - i,
    {
        block[i] = coeffs[(1 + i % 8) * 32 + (1 + i / 8)];
        i += 1;
    }
    block
}

/// The two middle coefficients: those at the indices 31 and 32 of the coefficients
/// in ascending order. The median is the mean of the two.
pub fn middle_pair(coeffs: &[i32; 64]) -> (middle: (i32, i32))
    ensures
        middle.0 == ascending(coeffs@)[31],
        middle.1 == ascending(coeffs@)[32],
        middle.0 <= middle.1,
{
    let sorted = sorted_copy(coeffs);
    proof {
        lemma_ascending(coeffs@);
    }
    (sorted[31], sorted[32])
}

proof fn lemma_set_bit(hash: u64, i: u64, j: u64)
    by (bit_vector)
    requires
        i < 64,
        j < 64,
    ensures
        ((hash | (1u64 << i)) >> j) & 1 == (if j == i {
            1
        } else {
            (hash >> j) & 1
        }),
{
}

proof fn lemma_no_bit(j: u64)
    by (bit_vector)
    requires
        j < 64,
    ensures
        (0u64 >> j) & 1 == 0,
{
}

/// The bits of `hash_bits`, one by one: bit `i` is set exactly where coefficient `i`
/// is among the first `n` and at least the median.
pub proof fn lemma_hash_bits(coeffs: Seq<i32>, median: i32, n: nat)
    requires
        n <= 64,
        n <= coeffs.len(),
    ensures
        forall|i: int|
            0 <= i < 64 ==> bit(hash_bits(coeffs, median, n), i) == (i < n && coeffs[i]
                >= median),
    decreases n,
{
    let hash = hash_bits(coeffs, median, n);
    assert forall|i: int| 0 <= i < 64 implies bit(hash, i) == (i < n && coeffs[i] >= median) by {
        if n == 0 {
            lemma_no_bit(i as u64);
        } else {
            let low = hash_bits(coeffs, median, (n - 1) as nat);
            lemma_hash_bits(coeffs, median, (n - 1) as nat);
            assert(bit(low, i) == (i < n - 1 && coeffs[i] >= median));
            if coeffs[n - 1] >= median {
                lemma_set_bit(low, (n - 1) as u64, i as u64);
                assert(bit(hash, i) == (i == n - 1 || bit(low, i)));
            }
        }
    }
}

/// The hash of 64 coefficients under a median.
pub fn threshold_hash(coeffs: &[i32; 64], median: i32) -> (hash: u64)
    ensures
        hash == hash_bits(coeffs@, median, 64),
        forall|i: int| 0 <= i < 64 ==> bit(hash, i) == (coeffs@[i] >= median),
{
    let mut hash: u64 = 0;
    let mut i: u64 = 0;
    while i < 64
        invariant
            i <= 64,
            coeffs@.len() == 64,
            hash == hash_bits(coeffs@, median, i as nat),
        decreases 64 - i,
    {
        if coeffs[i as usize] >= median {
            hash = hash | (1u64 << i);
        }
        i += 1;
    }
    proof {
        lemma_hash_bits(coeffs@, median, 64);
    }
    hash
}

/// The hash depends on the coefficients only through their order against the
/// median. Two sets of coefficients that compare alike with their medians, place by
/// place, have the same hash: the same input always gives the same hash, and so
/// does any other encoding of the coefficients that keeps their order.
pub proof fn law_hash_depends_on_order(
    first: Seq<i32>,
    first_median: i32,
    second: Seq<i32>,
    second_median: i32,
    n: nat,
)
    requires
        n <= 64,
        n <= first.len(),
        n <= second.len(),
        forall|i: int| 0 <= i < n ==> (first[i] >= first_median) == (second[i] >= second_median),
    ensures
        hash_bits(first, first_median, n) == hash_bits(second, second_median, n),
        hash_bits(first, first_median, n) ^ hash_bits(second, second_median, n) == 0,
    decreases n,
{
    if n > 0 {
        law_hash_depends_on_order(first, first_median, second, second_median, (n - 1) as nat);
    }
    let hash = hash_bits(first, first_median, n);
    assert(hash ^ hash == 0) by (bit_vector);
}

/// How many of the coefficients are at least `median`.
pub open spec fn count_at_least(coeffs: Seq<i32>, median: i32) -> nat
    decreases coeffs.len(),
{
    if coeffs.len() == 0 {
        0
    } else {
        count_at_least(coeffs.drop_last(), median) + if coeffs.last() >= median {
            1nat
        } else {
            0nat
        }
    }
}

/// How many of the first `n` bits of `hash` are set.
pub open spec fn set_bits(hash: u64, n: nat) -> nat
    decreases n,
{
    if n == 0 {
        0
    } else {
        set_bits(hash, (n - 1) as nat) + if bit(hash, n - 1) {
            1nat
        } else {
            0nat
        }
    }
}

proof fn lemma_count_without(coeffs: Seq<i32>, median: i32, k: int)
    requires
        0 <= k < coeffs.len(),
    ensures
        count_at_least(coeffs, median) == count_at_least(coeffs.remove(k), median) + if coeffs[k]
            >= median {
            1nat
        } else {
            0nat
        },
    decreases coeffs.len(),
{
    if k == coeffs.len() - 1 {
        assert(coeffs.remove(k) =~= coeffs.drop_last());
    } else {
        lemma_count_without(coeffs.drop_last(), median, k);
        assert(coeffs.remove(k).drop_last() =~= coeffs.drop_last().remove(k));
        assert(coeffs.remove(k).last() == coeffs.last());
    }
}

/// The count does not depend on the order of the coefficients.
proof fn lemma_count_of_same_coefficients(first: Seq<i32>, second: Seq<i32>, median: i32)
    requires
        first.to_multiset() == second.to_multiset(),
    ensures
        count_at_least(first, median) == count_at_least(second, median),
    decreases first.len(),
{
    broadcast use vstd::multiset::group_multiset_axioms;

    first.to_multiset_ensures();
    second.to_multiset_ensures();
    if first.len() > 0 {
        let x = first.last();
        assert(first.contains(x)) by {
            assert(first[first.len() - 1] == x);
        }
        assert(first.to_multiset().count(x) > 0);
        assert(second.to_multiset().count(x) > 0);
        assert(second.contains(x));
        let k = choose|k: int| 0 <= k < second.len() && second[k] == x;
        vstd::seq_lib::to_multiset_remove(first, first.len() - 1);
        vstd::seq_lib::to_multiset_remove(second, k);
        assert(first.remove(first.len() - 1) =~= first.drop_last());
        lemma_count_of_same_coefficients(first.drop_last(), second.remove(k), median);
        lemma_count_without(second, median, k);
    }
}

proof fn lemma_count_of_upper_half(sorted: Seq<i32>, median: i32, n: int)
    requires
        32 <= n <= sorted.len(),
        forall|j: int| 32 <= j < sorted.len() ==> sorted[j] >= median,
    ensures
        count_at_least(sorted.take(n), median) >= n - 32,
    decreases n,
{
    if n > 32 {
        lemma_count_of_upper_half(sorted, median, n - 1);
        assert(sorted.take(n).drop_last() =~= sorted.take(n - 1));
        assert(sorted.take(n).last() == sorted[n - 1]);
    }
}

proof fn lemma_set_bits_count(coeffs: Seq<i32>, median: i32, hash: u64, n: nat)
    requires
        n <= 64,
        n <= coeffs.len(),
        forall|i: int| 0 <= i < 64 ==> bit(hash, i) == (i < coeffs.len() && coeffs[i] >= median),
    ensures
        set_bits(hash, n) == count_at_least(coeffs.take(n as int), median),
    decreases n,
{
    if n > 0 {
        lemma_set_bits_count(coeffs, median, hash, (n - 1) as nat);
        assert(coeffs.take(n as int).drop_last() =~= coeffs.take(n - 1));
        assert(coeffs.take(n as int).last() == coeffs[n - 1]);
    }
}

/// Half of the bits are set, or more. The hash has one set bit for each coefficient
/// that is at least the median; with a median that is not above the upper one of the
/// two middle coefficients, these are 32 at least.
pub proof fn law_half_the_bits_are_set(coeffs: Seq<i32>, median: i32)
    requires
        coeffs.len() == 64,
        median <= ascending(coeffs)[32],
    ensures
        set_bits(hash_bits(coeffs, median, 64), 64) == count_at_least(coeffs, median),
        set_bits(hash_bits(coeffs, median, 64), 64) >= 32,
{
    let sorted = ascending(coeffs);
    lemma_ascending(coeffs);
    lemma_count_of_same_coefficients(coeffs, sorted, median);
    assert forall|j: int| 32 <= j < sorted.len() implies sorted[j] >= median by {
        if j > 32 {
            assert(sorted[32] <= sorted[j]);
        }
    }
    lemma_count_of_upper_half(sorted, median, 64);
    assert(sorted.take(64) =~= sorted);
    lemma_hash_bits(coeffs, median, 64);
    lemma_set_bits_count(coeffs, median, hash_bits(coeffs, median, 64), 64);
    assert(coeffs.take(64) =~= coeffs);
}

} // verus!
