//! From a key to its partition: the key is upper-cased and hashed to a
//! logical value in the keyspace, and the range table is searched for the
//! first range whose bound reaches that value.

use vstd::prelude::*;
use vstd::utf8::{encode_utf8, is_ascii_chars};
use crate::error::PartitionError;
use crate::mix_hash::{hash, hash_words};
use crate::range_table::{
    get_ranges, in_range, lemma_range_ends_increase, lemma_ranges_cover_keyspace,
    lemma_table_non_decreasing, non_decreasing, range_table, valid_count, KEYSPACE,
};

verus! {

/// What `str::to_uppercase` returns for a string of these characters.
pub uninterp spec fn uppercase_of(s: Seq<char>) -> Seq<char>;

/// An ASCII lower-case letter turned into its upper-case letter; any other
/// character unchanged.
pub open spec fn ascii_upper_char(c: char) -> char {
    if 'a' <= c <= 'z' {
        ((c as u32) - 32) as char
    } else {
        c
    }
}

/// An ASCII upper-case letter turned into its lower-case letter; any other
/// character unchanged.
pub open spec fn ascii_lower_char(c: char) -> char {
    if 'A' <= c <= 'Z' {
        ((c as u32) + 32) as char
    } else {
        c
    }
}

/// The string with every ASCII lower-case letter in upper case.
pub open spec fn ascii_uppercase(s: Seq<char>) -> Seq<char> {
    Seq::new(s.len(), |i: int| ascii_upper_char(s[i]))
}

/// The string with every ASCII upper-case letter in lower case.
pub open spec fn ascii_lowercase(s: Seq<char>) -> Seq<char> {
    Seq::new(s.len(), |i: int| ascii_lower_char(s[i]))
}

/// The form of a key that is hashed: its upper-case equivalent. For an ASCII
/// key that is the key with its letters `a` to `z` in upper case.
pub open spec fn normalized(key: Seq<char>) -> Seq<char> {
    if is_ascii_chars(key) {
        ascii_uppercase(key)
    } else {
        uppercase_of(key)
    }
}

/// The two hash words folded into the keyspace: their exclusive or, modulo
/// the size of the keyspace.
pub open spec fn reduced(word_c: u32, word_b: u32) -> int {
    (word_c ^ word_b) as int % (KEYSPACE as int)
}

/// The logical value of the bytes of a normalised key.
pub open spec fn logical_of_bytes(bytes: Seq<u8>) -> int {
    reduced(hash_words(bytes).2, hash_words(bytes).1)
}

/// The logical value of a key: zero for the empty key, else the reduced hash
/// of the UTF-8 bytes of its normalised form.
pub open spec fn logical_value(key: Seq<char>) -> int {
    if key.len() == 0 {
        0
    } else {
        logical_of_bytes(encode_utf8(normalized(key)))
    }
}

/// The first index at or after `from` whose bound reaches `value`, or the
/// last index where none does.
pub open spec fn first_covering_from(table: Seq<i32>, value: int, from: int) -> int
    decreases table.len() - from,
{
    if from >= table.len() - 1 {
        table.len() - 1
    } else if table[from] >= value {
        from
    } else {
        first_covering_from(table, value, from + 1)
    }
}

/// The first index of the table whose bound reaches `value`, or the last
/// index where none does.
pub open spec fn first_covering(table: Seq<i32>, value: int) -> int {
    first_covering_from(table, value, 0)
}

/// The partition that logical value `value` belongs to among `count`.
pub open spec fn partition_of_value(count: int, value: int) -> int {
    first_covering(range_table(count), value)
}

/// The partition that `key` belongs to among `count`.
pub open spec fn partition_of(count: int, key: Seq<char>) -> int {
    partition_of_value(count, logical_value(key))
}

/// What a lookup of `key` among `count` partitions gives: the key's
/// partition, or the refusal of a count that is zero or less.
pub open spec fn resolved(count: int, key: Seq<char>) -> Result<u16, PartitionError> {
    if count <= 0 {
        Err(PartitionError::InvalidPartitionCount)
    } else {
        Ok(partition_of(count, key) as u16)
    }
}

/// `first_covering_from` is an index of the table at or after `from`; every
/// bound from `from` up to it falls short of `value`, and unless it is the
/// last index its own bound reaches `value`.
proof fn lemma_first_covering_from_is_first(table: Seq<i32>, value: int, from: int)
    requires
        0 <= from < table.len(),
    ensures
        from <= first_covering_from(table, value, from) < table.len(),
        forall|j: int| from <= j < first_covering_from(table, value, from) ==> table[j] < value,
        first_covering_from(table, value, from) < table.len() - 1 ==> table[first_covering_from(
            table,
            value,
            from,
        )] >= value,
    decreases table.len() - from,
{
    if from < table.len() - 1 && table[from] < value {
        lemma_first_covering_from_is_first(table, value, from + 1);
    }
}

/// An index at or after `from` that every bound from `from` on falls short
/// of `value` before, and that reaches `value` or is the last index, is
/// `first_covering_from`.
proof fn lemma_first_covering_from_is_only(table: Seq<i32>, value: int, from: int, index: int)
    requires
        0 <= from <= index < table.len(),
        forall|j: int| from <= j < index ==> table[j] < value,
        index < table.len() - 1 ==> table[index] >= value,
    ensures
        first_covering_from(table, value, from) == index,
    decreases index - from,
{
    if from < index {
        lemma_first_covering_from_is_only(table, value, from + 1, index);
    }
}

/// In a table that is not empty, `first_covering` is an index of the table;
/// every bound before it falls short of `value`, and unless it is the last
/// index its own bound reaches `value`.
pub proof fn lemma_first_covering_is_first(table: Seq<i32>, value: int)
    requires
        table.len() > 0,
    ensures
        0 <= first_covering(table, value) < table.len(),
        forall|j: int| 0 <= j < first_covering(table, value) ==> table[j] < value,
        first_covering(table, value) < table.len() - 1 ==> table[first_covering(table, value)]
            >= value,
{
    lemma_first_covering_from_is_first(table, value, 0);
}

/// No other index is like `first_covering`: an index that every bound before
/// falls short of `value`, and that reaches `value` or is the last, is
/// `first_covering`.
pub proof fn lemma_first_covering_is_only(table: Seq<i32>, value: int, index: int)
    requires
        0 <= index < table.len(),
        forall|j: int| 0 <= j < index ==> table[j] < value,
        index < table.len() - 1 ==> table[index] >= value,
    ensures
        first_covering(table, value) == index,
{
    lemma_first_covering_from_is_only(table, value, 0, index);
}

/// Upper-cases a string with `str::to_uppercase`. The result is a function
/// of the characters alone, named `uppercase_of`; on an ASCII string it is
/// the string with the letters `a` to `z` replaced by `A` to `Z`, which is
/// all that the Unicode case mapping does to ASCII.
#[verifier::external_body]
fn uppercase(s: &str) -> (r: String)
    ensures
        r@ == uppercase_of(s@),
        is_ascii_chars(s@) ==> r@ == ascii_uppercase(s@),
{
    s.to_uppercase()
}

/// Hashes the bytes of a normalised key and folds the hash into the
/// keyspace.
pub fn logical_from_bytes(bytes: &[u8]) -> (value: i32)
    ensures
        value == logical_of_bytes(bytes@),
        0 <= value < KEYSPACE,
{
    let (hash1, hash2, _x) = hash(bytes);
    ((hash1 ^ hash2) % 32767u32) as i32
}

/// The logical value of a key: zero for the empty key, else the reduced hash
/// of its upper-cased bytes.
pub fn to_logical(partition_key: String) -> (value: i32)
    ensures
        value == logical_value(partition_key@),
        0 <= value < KEYSPACE,
{
    if partition_key.as_str().is_empty() {
        return 0;
    }
    let upper = uppercase(partition_key.as_str());
    logical_from_bytes(upper.as_str().as_bytes())
}

/// Searches a table of non-decreasing bounds for the first index whose bound
/// reaches `partition`; where none does, the last index.
pub fn to_partition_id(ranges: &[i32], partition: i32) -> (id: u16)
    requires
        0 < ranges@.len() <= 0x1_0000,
        non_decreasing(ranges@),
    ensures
        id == first_covering(ranges@, partition as int),
{
    let mut lower: usize = 0;
    let mut upper: usize = ranges.len() - 1;
    while lower < upper
        invariant
            lower <= upper < ranges@.len() <= 0x1_0000,
            non_decreasing(ranges@),
            forall|j: int| 0 <= j < lower ==> ranges@[j] < partition,
            upper < ranges@.len() - 1 ==> ranges@[upper as int] >= partition,
        decreases upper - lower,
    {
        let sum = lower + upper;
        assert(sum >> 1 == sum / 2) by (bit_vector);
        let middle = sum >> 1;

        if partition > ranges[middle] {
            lower = middle + 1;
        } else {
            upper = middle;
        }
    }
    proof {
        lemma_first_covering_is_only(ranges@, partition as int, lower as int);
    }
    lower as u16
}

/// The partition, among `partition_count`, that `partition_key` belongs to.
/// A count of zero or less is refused.
pub fn get_partition_id(partition_count: i16, partition_key: &str) -> (r: Result<
    u16,
    PartitionError,
>)
    ensures
        r == resolved(partition_count as int, partition_key@),
        partition_count <= 0 <==> r is Err,
        r matches Ok(id) ==> id < partition_count,
        partition_count > 0 && partition_key@.len() == 0 ==> r == Ok::<u16, PartitionError>(0),
{
    match get_ranges(partition_count) {
        Err(e) => Err(e),
        Ok(ranges) => {
            proof {
                lemma_table_non_decreasing(partition_count as int);
                lemma_partition_bounds(
                    partition_count as int,
                    logical_value(partition_key@),
                );
                lemma_empty_key(partition_count as int);
            }
            Ok(to_partition_id(ranges.as_slice(), to_logical(partition_key.to_owned())))
        },
    }
}

/// A logical value's partition is one of the `count` partitions.
pub proof fn lemma_partition_bounds(count: int, value: int)
    requires
        valid_count(count),
    ensures
        0 <= partition_of_value(count, value) < count,
{
    lemma_first_covering_is_first(range_table(count), value);
}

/// Within the keyspace a logical value lies in the range of its partition.
pub proof fn lemma_partition_holds_value(count: int, value: int)
    requires
        valid_count(count),
        0 <= value < KEYSPACE,
    ensures
        in_range(count, partition_of_value(count, value), value),
{
    lemma_ranges_cover_keyspace(count, value);
    let i = choose|i: int| 0 <= i < count && in_range(count, i, value);
    let table = range_table(count);
    assert forall|j: int| 0 <= j < i implies table[j] < value by {
        lemma_range_ends_increase(count, j, i - 1);
    }
    lemma_range_ends_increase(count, i, i);
    lemma_first_covering_is_only(table, value, i);
}

/// Identical inputs give identical results.
pub proof fn lemma_lookup_deterministic(
    count: int,
    key: Seq<char>,
    other_count: int,
    other_key: Seq<char>,
)
    requires
        count == other_count,
        key =~= other_key,
    ensures
        resolved(count, key) == resolved(other_count, other_key),
{
}

/// An ASCII key, the key in upper case and the key in lower case all belong
/// to the same partition.
pub proof fn lemma_case_insensitive(count: int, key: Seq<char>)
    requires
        is_ascii_chars(key),
    ensures
        resolved(count, ascii_uppercase(key)) == resolved(count, key),
        resolved(count, ascii_lowercase(key)) == resolved(count, key),
{
    let upper = ascii_uppercase(key);
    let lower = ascii_lowercase(key);
    assert(is_ascii_chars(upper));
    assert(is_ascii_chars(lower));
    assert(ascii_uppercase(upper) =~= upper);
    assert(ascii_uppercase(lower) =~= upper);
}

/// The partition of a key is one of the `count` partitions.
pub proof fn lemma_partition_in_bounds(count: int, key: Seq<char>)
    requires
        valid_count(count),
    ensures
        0 <= partition_of(count, key) < count,
{
    lemma_partition_bounds(count, logical_value(key));
}

/// The empty key belongs to partition zero.
pub proof fn lemma_empty_key(count: int)
    requires
        valid_count(count),
    ensures
        partition_of(count, Seq::<char>::empty()) == 0,
{
    lemma_range_ends_increase(count, 0, 0);
    lemma_first_covering_is_only(range_table(count), 0, 0);
}

} // verus!
