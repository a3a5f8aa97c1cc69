//! Plain 32-bit integers as values, in a field of four bytes.

use vstd::prelude::*;
use crate::decimal::{
    align_right, integer_text, lemma_integer_text, lemma_pow10_values, lemma_shortest_len,
    lemma_trim_right_aligned, parse_integer, read_integer, right_aligned, skip_blanks,
    trim_start, write_integer,
};
use crate::error::StoreError;
use crate::key_value_store::Storable;
use crate::pooled_time_series::Poolable;
use crate::value::{lemma_quotient_bound, quotient};

verus! {

broadcast use vstd::slice::group_slice_axioms;

/// The number of bytes of a stored integer.
pub const INTEGER_SIZE: usize = 4;

/// The sum of `values`, wrapped around at the ends of the 32-bit range.
pub open spec fn wrapped_sum(values: Seq<i32>) -> i32
    decreases values.len(),
{
    if values.len() == 0 {
        0
    } else {
        wrapped_sum(values.drop_last()).wrapping_add(values.last())
    }
}

impl Storable for i32 {
    open spec fn width() -> nat {
        4
    }

    open spec fn rank(self) -> int {
        self as int
    }

    open spec fn fits(self) -> bool {
        -999 <= self <= 9999
    }

    open spec fn encoding(self) -> Seq<u8> {
        right_aligned(integer_text(self as int), 4)
    }

    open spec fn decoding(text: Seq<u8>) -> Option<Self> {
        match parse_integer(trim_start(text)) {
            Some(v) => if i32::MIN <= v <= i32::MAX {
                Some(v as i32)
            } else {
                None
            },
            None => None,
        }
    }

    open spec fn initial() -> Self {
        0
    }

    fn size() -> (n: usize) {
        INTEGER_SIZE
    }

    fn into_bytes(self) -> (r: Result<Vec<u8>, StoreError>) {
        if self < -999 || self > 9999 {
            Err(StoreError::OutOfRange)
        } else {
            Ok(align_right(write_integer(self as i64), INTEGER_SIZE))
        }
    }

    fn from_bytes(buffer: &[u8]) -> (r: Result<Self, StoreError>) {
        let start: usize = skip_blanks(buffer);
        assert(buffer@.subrange(start as int, buffer@.len() as int) =~= buffer@.skip(
            start as int,
        ));
        match read_integer(buffer, start, buffer.len()) {
            Some(v) => {
                if v < -2147483648 || v > 2147483647 {
                    Err(StoreError::Malformed)
                } else {
                    Ok(v as i32)
                }
            },
            None => Err(StoreError::Malformed),
        }
    }

    fn default_value() -> (value: Self) {
        0
    }

    fn precedes(self, other: Self) -> (b: bool) {
        self < other
    }

    proof fn lemma_rank_decides(a: Self, b: Self) {
    }

    proof fn lemma_round_trip(self) {
        let text = integer_text(self as int);
        lemma_integer_text(self as int);
        lemma_pow10_values();
        if self < 0 {
            lemma_shortest_len((-self) as nat, 3);
        } else {
            lemma_shortest_len(self as nat, 4);
        }
        lemma_trim_right_aligned(text, 4);
    }
}

impl Poolable for i32 {
    open spec fn mean_of(values: Seq<Self>) -> Self {
        quotient(wrapped_sum(values) as int, values.len() as int) as i32
    }

    open spec fn sum_of(values: Seq<Self>) -> Self {
        wrapped_sum(values)
    }

    fn mean(values: &[Self]) -> (mean: Self) {
        let total: i64 = Self::sum(values) as i64;
        let count: usize = values.len();
        let mean: i128 = (total as i128) / (count as i128);
        proof {
            lemma_quotient_bound(total as int, count as int);
        }
        mean as i32
    }

    fn sum(values: &[Self]) -> (sum: Self) {
        let mut sum: i32 = 0;
        let mut i: usize = 0;
        assert(values@.subrange(0, 0) =~= Seq::<i32>::empty());
        while i < values.len()
            invariant
                i <= values@.len(),
                sum == wrapped_sum(values@.subrange(0, i as int)),
            decreases values@.len() - i,
        {
            assert(values@.subrange(0, i + 1).drop_last() =~= values@.subrange(0, i as int));
            sum = sum.wrapping_add(values[i]);
            i += 1;
        }
        assert(values@.subrange(0, i as int) =~= values@);
        sum
    }
}

} // verus!
