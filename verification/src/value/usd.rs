//! Amounts of dollars, counted in cents.

use vstd::prelude::*;
use crate::decimal::{as_chars, lemma_pow10_values, numeral_string, right_aligned};
use crate::error::StoreError;
use crate::key_value_store::Storable;
use crate::pooled_time_series::Poolable;
use crate::value::{
    display_text, fixed_text, lemma_display_bytes, lemma_fixed_round_trip, parse_fixed, quotient,
    read_fixed, remainder, wrapped_mean, wrapped_total, wrapping_mean, wrapping_sum,
    write_display, write_fixed, Value,
};

verus! {

broadcast use vstd::slice::group_slice_axioms;

/// The digits of the whole units that a stored amount can have.
pub const MAJOR_DIGITS: usize = 6;

/// The digits of the fraction.
pub const MINOR_DIGITS: usize = 2;

/// The number of smallest units in one whole unit.
pub const UNIT: i64 = 100;

/// The first amount that does not fit the stored form.
pub const LIMIT: i64 = 100_000_000;

#[derive(Clone, Copy, Debug, Default, Eq, Ord, PartialEq, PartialOrd, Structural)]
pub struct Usd {
    pub value: i64,
}

/// The amounts of `values`, in the smallest unit.
pub open spec fn amounts(values: Seq<Usd>) -> Seq<i64> {
    Seq::new(values.len(), |i: int| values[i].value)
}

/// The amounts of `values`, in the smallest unit.
fn plain_amounts(values: &[Usd]) -> (plain: Vec<i64>)
    ensures
        plain@ == amounts(values@),
{
    let mut plain: Vec<i64> = Vec::new();
    let mut i: usize = 0;
    while i < values.len()
        invariant
            i <= values@.len(),
            plain@ == amounts(values@).subrange(0, i as int),
        decreases values@.len() - i,
    {
        plain.push(values[i].value);
        i += 1;
        assert(plain@ =~= amounts(values@).subrange(0, i as int));
    }
    assert(amounts(values@).subrange(0, i as int) =~= amounts(values@));
    plain
}

impl Usd {
    pub fn new(value: i64) -> (usd: Self)
        ensures
            usd.value == value,
    {
        Self { value }
    }

    /// The amount as it is displayed, such as `123.45`.
    pub fn to_text(&self) -> (text: String)
        ensures
            text@ == as_chars(display_text(self.value as int, 2)),
    {
        proof {
            lemma_pow10_values();
            lemma_display_bytes(self.value as int, 2);
        }
        let bytes = write_display(self.value, MINOR_DIGITS, UNIT);
        numeral_string(&bytes)
    }
}

impl Value for Usd {
    open spec fn whole_part(&self) -> int {
        quotient(self.value as int, 100)
    }

    open spec fn fractional_part(&self) -> int {
        remainder(self.value as int, 100)
    }

    fn whole(&self) -> (units: i64) {
        self.value / UNIT
    }

    fn fractional(&self) -> (rest: i64) {
        self.value % UNIT
    }
}

impl Storable for Usd {
    open spec fn width() -> nat {
        9
    }

    open spec fn rank(self) -> int {
        self.value as int
    }

    open spec fn fits(self) -> bool {
        0 <= self.value < 100_000_000
    }

    open spec fn encoding(self) -> Seq<u8> {
        right_aligned(fixed_text(self.value as nat, 2), 9)
    }

    open spec fn decoding(text: Seq<u8>) -> Option<Self> {
        match parse_fixed(text, 2) {
            Some(amount) => if i64::MIN <= amount <= i64::MAX {
                Some(Usd { value: amount as i64 })
            } else {
                None
            },
            None => None,
        }
    }

    open spec fn initial() -> Self {
        Usd { value: 0 }
    }

    fn size() -> (n: usize) {
        MAJOR_DIGITS + 1 + MINOR_DIGITS
    }

    fn into_bytes(self) -> (r: Result<Vec<u8>, StoreError>) {
        if self.value < 0 || self.value >= LIMIT {
            Err(StoreError::OutOfRange)
        } else {
            proof {
                lemma_pow10_values();
            }
            Ok(write_fixed(self.value as u64, MINOR_DIGITS, UNIT as u64, 9))
        }
    }

    fn from_bytes(buffer: &[u8]) -> (r: Result<Self, StoreError>) {
        proof {
            lemma_pow10_values();
        }
        match read_fixed(buffer, MINOR_DIGITS, UNIT) {
            Some(value) => Ok(Usd { value }),
            None => Err(StoreError::Malformed),
        }
    }

    fn default_value() -> (value: Self) {
        Usd { value: 0 }
    }

    fn precedes(self, other: Self) -> (b: bool) {
        self.value < other.value
    }

    proof fn lemma_rank_decides(a: Self, b: Self) {
    }

    proof fn lemma_round_trip(self) {
        lemma_pow10_values();
        lemma_fixed_round_trip(self.value as nat, 6, 2);
    }
}

impl Poolable for Usd {
    open spec fn mean_of(values: Seq<Self>) -> Self {
        Usd { value: wrapped_mean(amounts(values)) }
    }

    open spec fn sum_of(values: Seq<Self>) -> Self {
        Usd { value: wrapped_total(amounts(values)) }
    }

    fn mean(values: &[Self]) -> (mean: Self) {
        let plain = plain_amounts(values);
        Usd { value: wrapping_mean(plain.as_slice()) }
    }

    fn sum(values: &[Self]) -> (sum: Self) {
        let plain = plain_amounts(values);
        Usd { value: wrapping_sum(plain.as_slice()) }
    }
}

} // verus!
