//! The table of inclusive upper bounds that splits the logical keyspace
//! `0 ..= KEYSPACE - 1` into contiguous ranges, one per partition, whose
//! sizes differ by at most one. The lower-numbered ranges take the extra slot
//! when the keyspace does not divide evenly.

use vstd::prelude::*;
use crate::error::PartitionError;

verus! {

/// The number of logical values: the largest signed 16-bit integer.
pub const KEYSPACE: i16 = 32767;

/// Whether `count` is a number of partitions the keyspace can be split into.
pub open spec fn valid_count(count: int) -> bool {
    0 < count <= KEYSPACE
}

/// The size every range of `count` has at least: the keyspace divided by
/// `count`, rounded down.
pub open spec fn base_size(count: int) -> int {
    (KEYSPACE as int) / count
}

/// The number of ranges of `count` that hold one value more than
/// `base_size`: what the division leaves over.
pub open spec fn larger_ranges(count: int) -> int {
    (KEYSPACE as int) % count
}

/// The number of logical values in range `i` of `count`: the first
/// `larger_ranges` ranges hold one more than the others.
pub open spec fn range_size(count: int, i: int) -> int {
    if i < larger_ranges(count) {
        base_size(count) + 1
    } else {
        base_size(count)
    }
}

/// The largest logical value of range `i` of `count`.
pub open spec fn range_end(count: int, i: int) -> int {
    (i + 1) * base_size(count) + vstd::math::min(i + 1, larger_ranges(count)) - 1
}

/// The smallest logical value of range `i` of `count`.
pub open spec fn range_start(count: int, i: int) -> int {
    range_end(count, i - 1) + 1
}

/// Whether logical value `value` lies in range `i` of `count`.
pub open spec fn in_range(count: int, i: int, value: int) -> bool {
    range_start(count, i) <= value <= range_end(count, i)
}

/// The table for `count` partitions: entry `i` is the largest logical value
/// of range `i`.
pub open spec fn range_table(count: int) -> Seq<i32> {
    Seq::new(count as nat, |i: int| range_end(count, i) as i32)
}

/// Whether a table's bounds never decrease.
pub open spec fn non_decreasing(table: Seq<i32>) -> bool {
    forall|i: int, j: int| 0 <= i <= j < table.len() ==> table[i] <= table[j]
}

/// The quotient and remainder of the keyspace by a valid count.
proof fn lemma_keyspace_split(count: int)
    requires
        valid_count(count),
    ensures
        1 <= base_size(count) <= KEYSPACE,
        0 <= larger_ranges(count) < count,
        count * base_size(count) + larger_ranges(count) == KEYSPACE,
{
    vstd::arithmetic::div_mod::lemma_fundamental_div_mod(KEYSPACE as int, count);
    vstd::arithmetic::div_mod::lemma_mod_bound(KEYSPACE as int, count);
    let base = base_size(count);
    let rest = larger_ranges(count);
    assert(1 <= base <= KEYSPACE) by (nonlinear_arith)
        requires
            0 < count <= KEYSPACE,
            0 <= rest < count,
            count * base + rest == KEYSPACE,
    ;
}

/// Each range begins right after the one before it ends, the first at zero,
/// and holds `range_size` values.
pub proof fn lemma_range_sizes(count: int, i: int)
    requires
        valid_count(count),
        0 <= i < count,
    ensures
        range_start(count, 0) == 0,
        range_end(count, i) - range_start(count, i) + 1 == range_size(count, i),
        range_size(count, i) >= 1,
{
    lemma_keyspace_split(count);
    let base = base_size(count);
    assert((i + 1) * base == i * base + base) by (nonlinear_arith);
    assert(0 * base == 0) by (nonlinear_arith);
}

/// The bounds grow strictly with the range's index, and the last one is the
/// top of the keyspace.
pub proof fn lemma_range_ends_increase(count: int, i: int, j: int)
    requires
        valid_count(count),
        0 <= i <= j < count,
    ensures
        0 <= range_end(count, i) <= range_end(count, j) <= KEYSPACE - 1,
        i < j ==> range_end(count, i) < range_end(count, j),
        range_end(count, count - 1) == KEYSPACE - 1,
{
    lemma_keyspace_split(count);
    let base = base_size(count);
    assert((i + 1) * base <= (j + 1) * base && (j + 1) * base <= count * base && 1 * base <= (i
        + 1) * base) by (nonlinear_arith)
        requires
            0 <= i <= j < count,
            base >= 1,
    ;
    assert(i < j ==> (i + 1) * base < (j + 1) * base) by (nonlinear_arith)
        requires
            0 <= i <= j,
            base >= 1,
    ;
}

/// A range that holds `value`, found among the ranges up to `upto`.
proof fn lemma_find_range(count: int, value: int, upto: int) -> (i: int)
    requires
        valid_count(count),
        0 <= upto < count,
        0 <= value <= range_end(count, upto),
    ensures
        0 <= i <= upto,
        in_range(count, i, value),
    decreases upto,
{
    lemma_range_sizes(count, upto);
    if value >= range_start(count, upto) {
        upto
    } else {
        lemma_find_range(count, value, upto - 1)
    }
}

/// The table has one bound per partition, its bounds never decrease, and the
/// last one is the top of the keyspace.
pub proof fn lemma_table_non_decreasing(count: int)
    requires
        valid_count(count),
    ensures
        range_table(count).len() == count,
        non_decreasing(range_table(count)),
        range_table(count).last() == KEYSPACE - 1,
        forall|i: int| 0 <= i < count ==> 0 <= #[trigger] range_table(count)[i] <= KEYSPACE - 1,
{
    let table = range_table(count);
    assert forall|i: int, j: int| 0 <= i <= j < table.len() implies table[i] <= table[j] by {
        lemma_range_ends_increase(count, i, j);
    }
    assert forall|i: int| 0 <= i < count implies 0 <= #[trigger] table[i] <= KEYSPACE - 1 by {
        lemma_range_ends_increase(count, i, i);
    }
    lemma_range_ends_increase(count, 0, count - 1);
}

/// The ranges cover the keyspace exactly: a logical value lies in some
/// range, it lies in no two of them, and nothing outside the keyspace lies
/// in any.
pub proof fn lemma_ranges_cover_keyspace(count: int, value: int)
    requires
        valid_count(count),
    ensures
        0 <= value < KEYSPACE ==> exists|i: int|
            0 <= i < count && #[trigger] in_range(count, i, value),
        forall|i: int, j: int|
            0 <= i < count && 0 <= j < count && #[trigger] in_range(count, i, value)
                && #[trigger] in_range(count, j, value) ==> i == j,
        forall|i: int|
            0 <= i < count && #[trigger] in_range(count, i, value) ==> 0 <= value < KEYSPACE,
{
    if 0 <= value < KEYSPACE {
        lemma_range_ends_increase(count, 0, count - 1);
        let i = lemma_find_range(count, value, count - 1);
        assert(0 <= i < count && in_range(count, i, value));
    }
    assert forall|i: int, j: int|
        0 <= i < count && 0 <= j < count && #[trigger] in_range(count, i, value)
            && #[trigger] in_range(count, j, value) implies i == j by {
        if i < j {
            lemma_range_ends_increase(count, i, j - 1);
        }
        if j < i {
            lemma_range_ends_increase(count, j, i - 1);
        }
    }
    assert forall|i: int| 0 <= i < count && #[trigger] in_range(count, i, value) implies 0
        <= value < KEYSPACE by {
        lemma_range_ends_increase(count, i, i);
        lemma_range_sizes(count, i);
        if i > 0 {
            lemma_range_ends_increase(count, i - 1, i);
        }
    }
}

/// Builds the table of inclusive upper bounds for `range_count` partitions.
/// A count of zero or less is refused.
pub fn get_ranges(range_count: i16) -> (r: Result<Vec<i32>, PartitionError>)
    ensures
        range_count <= 0 <==> r == Err::<Vec<i32>, PartitionError>(
            PartitionError::InvalidPartitionCount,
        ),
        range_count > 0 ==> r is Ok && r->Ok_0@ == range_table(range_count as int),
        r matches Ok(table) ==> table@.len() == range_count && non_decreasing(table@)
            && table@.last() == KEYSPACE - 1,
{
    if range_count <= 0 {
        return Err(PartitionError::InvalidPartitionCount);
    }
    let mut ranges: Vec<i32> = Vec::with_capacity(range_count as usize);
    let count = KEYSPACE;
    proof {
        lemma_keyspace_split(range_count as int);
    }
    let partitions_per_range_base = count / range_count;
    let remaining_partitions = count - (range_count * partitions_per_range_base);
    let mut end: i32 = -1;
    let mut i: i16 = 0;
    while i < range_count - 1
        invariant
            valid_count(range_count as int),
            count == KEYSPACE,
            partitions_per_range_base == base_size(range_count as int),
            remaining_partitions == larger_ranges(range_count as int),
            0 <= i <= range_count - 1,
            end == range_end(range_count as int, i - 1),
            ranges@.len() == i,
            forall|k: int| 0 <= k < i ==> ranges@[k] == range_end(range_count as int, k),
        decreases range_count - i,
    {
        proof {
            lemma_keyspace_split(range_count as int);
            lemma_range_sizes(range_count as int, i as int);
            lemma_range_ends_increase(range_count as int, i as int, range_count - 1);
        }
        let partitions_per_range = if i < remaining_partitions {
            partitions_per_range_base + 1
        } else {
            partitions_per_range_base
        };
        let next = end + partitions_per_range as i32;
        end = if next < count as i32 - 1 { next } else { count as i32 - 1 };
        ranges.push(end);
        i += 1;
    }
    proof {
        lemma_range_ends_increase(range_count as int, 0, range_count - 1);
    }
    ranges.push(count as i32 - 1);
    proof {
        assert(ranges@ =~= range_table(range_count as int));
        lemma_table_non_decreasing(range_count as int);
    }
    Ok(ranges)
}

} // verus!
