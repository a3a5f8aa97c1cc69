//! Values that a store can hold: plain integers and amounts of money.

pub mod btc;
pub mod integer;
pub mod usd;

use vstd::prelude::*;
use crate::decimal::{
    align_right, integer_text, is_numeral_byte, lemma_integer_text, lemma_shortest,
    lemma_shortest_len, lemma_trim_right_aligned, lemma_zero_padded_shape,
    lemma_zero_padded_value, parse_integer, parse_unsigned, pow10, read_integer, read_unsigned,
    right_aligned, shortest, skip_blanks, trim_start, write_integer, write_shortest,
    write_zero_padded, zero_padded, MINUS, POINT,
};

pub use btc::Btc;
pub use usd::Usd;

verus! {

broadcast use vstd::slice::group_slice_axioms;

/// An amount with a whole and a fractional part.
pub trait Value {
    /// The whole units of the amount.
    spec fn whole_part(&self) -> int;

    /// What is left of the amount beside its whole units, in the smallest unit.
    spec fn fractional_part(&self) -> int;

    fn whole(&self) -> (units: i64)
        ensures
            units == self.whole_part(),
    ;

    fn fractional(&self) -> (rest: i64)
        ensures
            rest == self.fractional_part(),
    ;
}

/// The quotient of `a` by the positive `b`, rounded towards zero.
pub open spec fn quotient(a: int, b: int) -> int {
    if a >= 0 {
        a / b
    } else {
        -((-a) / b)
    }
}

/// What is left of `a` when the multiples of the positive `b` are taken out
/// of it, with the sign of `a`.
pub open spec fn remainder(a: int, b: int) -> int {
    a - quotient(a, b) * b
}

/// The sum of `amounts`, wrapped around at the ends of the 64-bit range.
pub open spec fn wrapped_total(amounts: Seq<i64>) -> i64
    decreases amounts.len(),
{
    if amounts.len() == 0 {
        0
    } else {
        wrapped_total(amounts.drop_last()).wrapping_add(amounts.last())
    }
}

/// The mean of `amounts`, of which there is one at least: their wrapped
/// total by their number, rounded towards zero.
pub open spec fn wrapped_mean(amounts: Seq<i64>) -> i64 {
    quotient(wrapped_total(amounts) as int, amounts.len() as int) as i64
}

/// The text of an amount of `minor` fractional digits: the whole units
/// without leading zeros, a point, and the fraction in all its digits.
pub open spec fn fixed_text(amount: nat, minor: nat) -> Seq<u8> {
    shortest(amount / pow10(minor)) + seq![46u8] + zero_padded(amount % pow10(minor), minor)
}

/// The amount that `text` stands for: after leading blanks an integer, a
/// point, and `minor` digits.
pub open spec fn parse_fixed(text: Seq<u8>, minor: nat) -> Option<int> {
    let trimmed = trim_start(text);
    let split = trimmed.len() - minor - 1;
    let whole = parse_integer(trimmed.subrange(0, split));
    let fraction = parse_unsigned(trimmed.subrange(split + 1, trimmed.len() as int));
    if trimmed.len() >= minor + 2 && trimmed[split] == 46 && whole is Some && i64::MIN
        <= whole->Some_0 <= i64::MAX && fraction is Some {
        Some(whole->Some_0 * pow10(minor) + fraction->Some_0)
    } else {
        None
    }
}

/// The fraction of an amount as it is displayed: in all its `minor` digits; a
/// negative one with its sign in place of the first digit, where that digit
/// is not needed.
pub open spec fn fraction_text(rest: int, minor: nat) -> Seq<u8> {
    if rest >= 0 {
        zero_padded(rest as nat, minor)
    } else if -rest < pow10((minor - 1) as nat) {
        seq![45u8] + zero_padded((-rest) as nat, (minor - 1) as nat)
    } else {
        seq![45u8] + shortest((-rest) as nat)
    }
}

/// An amount as it is displayed: the whole units, a point, the fraction.
pub open spec fn display_text(amount: int, minor: nat) -> Seq<u8> {
    integer_text(quotient(amount, pow10(minor) as int)) + seq![46u8] + fraction_text(
        remainder(amount, pow10(minor) as int),
        minor,
    )
}

/// The text of an amount is made of numeral bytes only.
pub proof fn lemma_display_bytes(amount: int, minor: nat)
    requires
        minor >= 1,
    ensures
        forall|i: int|
            0 <= i < display_text(amount, minor).len() ==> is_numeral_byte(
                #[trigger] display_text(amount, minor)[i],
            ),
{
    let units = quotient(amount, pow10(minor) as int);
    let rest = remainder(amount, pow10(minor) as int);
    if units < 0 {
        lemma_shortest((-units) as nat);
    } else {
        lemma_shortest(units as nat);
    }
    if rest >= 0 {
        lemma_zero_padded_shape(rest as nat, minor);
    } else {
        lemma_zero_padded_shape((-rest) as nat, (minor - 1) as nat);
        lemma_shortest((-rest) as nat);
    }
    let whole = integer_text(units);
    let fraction = fraction_text(rest, minor);
    assert forall|i: int| 0 <= i < whole.len() implies is_numeral_byte(#[trigger] whole[i]) by {
        if units < 0 && i > 0 {
            assert(whole[i] == shortest((-units) as nat)[i - 1]);
        }
    }
    assert forall|i: int| 0 <= i < fraction.len() implies is_numeral_byte(
        #[trigger] fraction[i],
    ) by {
        if rest < 0 && i > 0 {
            if -rest < pow10((minor - 1) as nat) {
                assert(fraction[i] == zero_padded((-rest) as nat, (minor - 1) as nat)[i - 1]);
            } else {
                assert(fraction[i] == shortest((-rest) as nat)[i - 1]);
            }
        }
    }
    let text = display_text(amount, minor);
    assert forall|i: int| 0 <= i < text.len() implies is_numeral_byte(#[trigger] text[i]) by {
        if i < whole.len() {
            assert(text[i] == whole[i]);
        } else if i > whole.len() {
            assert(text[i] == fraction[i - whole.len() - 1]);
        }
    }
}

/// An amount that is not negative is displayed as it is stored, but for the
/// spaces before it.
pub proof fn lemma_display_is_fixed(amount: int, minor: nat)
    requires
        amount >= 0,
    ensures
        display_text(amount, minor) == fixed_text(amount as nat, minor),
{
    lemma_pow10_grows(minor, minor);
    vstd::arithmetic::div_mod::lemma_fundamental_div_mod(amount, pow10(minor) as int);
    vstd::arithmetic::div_mod::lemma_div_pos_is_pos(amount, pow10(minor) as int);
    vstd::arithmetic::div_mod::lemma_mod_bound(amount, pow10(minor) as int);
    let scale = pow10(minor) as int;
    assert((amount / scale) * scale == scale * (amount / scale)) by (nonlinear_arith);
}

/// Writes an amount of `minor` fractional digits as it is displayed.
pub fn write_display(value: i64, minor: usize, unit: i64) -> (text: Vec<u8>)
    requires
        unit == pow10(minor as nat),
        minor >= 1,
    ensures
        text@ == display_text(value as int, minor as nat),
{
    proof {
        lemma_pow10_grows((minor - 1) as nat, minor as nat);
        assert(pow10(minor as nat) == 10 * pow10((minor - 1) as nat));
    }
    let units: i64 = value / unit;
    let rest: i64 = value % unit;
    proof {
        let size = if value >= 0 {
            value as int
        } else {
            -value
        };
        vstd::arithmetic::div_mod::lemma_fundamental_div_mod(size, unit as int);
        assert((size / unit as int) * unit == unit * (size / unit as int)) by (nonlinear_arith);
        assert(units == quotient(value as int, unit as int));
        let q = size / (unit as int);
        assert((-q) * unit == -(q * unit)) by (nonlinear_arith);
        assert(rest == remainder(value as int, unit as int));
    }
    let mut text = write_integer(units);
    text.push(POINT);
    if rest >= 0 {
        let mut fraction = write_zero_padded(rest as u64, minor);
        text.append(&mut fraction);
    } else {
        let magnitude: u64 = (-rest) as u64;
        text.push(MINUS);
        let mut fraction = if magnitude < (unit / 10) as u64 {
            write_zero_padded(magnitude, minor - 1)
        } else {
            write_shortest(magnitude)
        };
        text.append(&mut fraction);
    }
    assert(text@ =~= display_text(value as int, minor as nat));
    text
}

/// The sum of `amounts`, wrapped around at the ends of the 64-bit range.
pub fn wrapping_sum(amounts: &[i64]) -> (sum: i64)
    ensures
        sum == wrapped_total(amounts@),
{
    let mut sum: i64 = 0;
    let mut i: usize = 0;
    assert(amounts@.subrange(0, 0) =~= Seq::<i64>::empty());
    while i < amounts.len()
        invariant
            i <= amounts@.len(),
            sum == wrapped_total(amounts@.subrange(0, i as int)),
        decreases amounts@.len() - i,
    {
        assert(amounts@.subrange(0, i + 1).drop_last() =~= amounts@.subrange(0, i as int));
        sum = sum.wrapping_add(amounts[i]);
        i += 1;
    }
    assert(amounts@.subrange(0, i as int) =~= amounts@);
    sum
}

/// The mean of `amounts`: their wrapped sum by their number, rounded towards
/// zero.
pub fn wrapping_mean(amounts: &[i64]) -> (mean: i64)
    requires
        amounts@.len() > 0,
    ensures
        mean == wrapped_mean(amounts@),
{
    let total: i64 = wrapping_sum(amounts);
    let count: usize = amounts.len();
    let mean: i128 = (total as i128) / (count as i128);
    proof {
        lemma_quotient_bound(total as int, count as int);
    }
    mean as i64
}

/// A quotient by a positive number, rounded towards zero, lies no further
/// from zero than what was divided.
pub proof fn lemma_quotient_bound(a: int, b: int)
    requires
        b > 0,
    ensures
        a >= 0 ==> 0 <= quotient(a, b) <= a,
        a < 0 ==> a <= quotient(a, b) <= 0,
{
    if a >= 0 {
        vstd::arithmetic::div_mod::lemma_div_pos_is_pos(a, b);
        vstd::arithmetic::div_mod::lemma_div_is_ordered_by_denominator(a, 1, b);
    } else {
        vstd::arithmetic::div_mod::lemma_div_pos_is_pos(-a, b);
        vstd::arithmetic::div_mod::lemma_div_is_ordered_by_denominator(-a, 1, b);
    }
}

/// An amount whose whole units take at most `major` digits is written in at
/// most `major + 1 + minor` bytes, and reading its right-aligned text gives
/// the amount back.
pub proof fn lemma_fixed_round_trip(amount: nat, major: nat, minor: nat)
    requires
        major >= 1,
        minor >= 1,
        amount / pow10(minor) < pow10(major),
        amount / pow10(minor) <= i64::MAX,
        pow10(minor) > 0,
    ensures
        right_aligned(fixed_text(amount, minor), major + 1 + minor).len() == major + 1 + minor,
        parse_fixed(right_aligned(fixed_text(amount, minor), major + 1 + minor), minor) == Some(
            amount as int,
        ),
{
    let scale = pow10(minor);
    let units = amount / scale;
    let rest = amount % scale;
    let text = fixed_text(amount, minor);
    lemma_shortest(units);
    lemma_shortest_len(units, major);
    lemma_zero_padded_shape(rest, minor);
    lemma_zero_padded_value(rest, minor);
    lemma_integer_text(units as int);
    assert(text[0] == shortest(units)[0]);
    lemma_trim_right_aligned(text, major + 1 + minor);
    let split = text.len() - minor - 1;
    assert(split == shortest(units).len());
    assert(text.subrange(0, split) =~= shortest(units));
    assert(text[split] == 46);
    assert(text.subrange(split + 1, text.len() as int) =~= zero_padded(rest, minor));
    vstd::arithmetic::div_mod::lemma_fundamental_div_mod(amount as int, scale as int);
    assert(units * scale == scale * units) by (nonlinear_arith);
}

/// Writes an amount of `minor` fractional digits, right-aligned in `width` bytes.
pub fn write_fixed(amount: u64, minor: usize, scale: u64, width: usize) -> (out: Vec<u8>)
    requires
        scale == pow10(minor as nat),
        scale > 0,
    ensures
        out@ == right_aligned(fixed_text(amount as nat, minor as nat), width as nat),
{
    let mut text = write_shortest(amount / scale);
    text.push(POINT);
    let mut fraction = write_zero_padded(amount % scale, minor);
    text.append(&mut fraction);
    assert(text@ =~= fixed_text(amount as nat, minor as nat));
    align_right(text, width)
}

/// Reads an amount of `minor` fractional digits; `None` where `buffer` is no
/// such amount or the amount is beyond 64 bits.
pub fn read_fixed(buffer: &[u8], minor: usize, scale: i64) -> (r: Option<i64>)
    requires
        scale == pow10(minor as nat),
        0 < scale <= 1_000_000_000_000_000_000,
        minor <= 18,
    ensures
        r == match parse_fixed(buffer@, minor as nat) {
            Some(amount) => if i64::MIN <= amount <= i64::MAX {
                Some(amount as i64)
            } else {
                None
            },
            None => None,
        },
{
    let start: usize = skip_blanks(buffer);
    let len: usize = buffer.len();
    let ghost trimmed = buffer@.skip(start as int);
    if len - start < minor + 2 {
        return None;
    }
    let split: usize = len - minor - 1;
    proof {
        assert(trimmed[split - start] == buffer@[split as int]);
        assert(trimmed.subrange(0, split - start) =~= buffer@.subrange(start as int, split as int));
        assert(trimmed.subrange(split - start + 1, trimmed.len() as int) =~= buffer@.subrange(
            split + 1,
            len as int,
        ));
    }
    if buffer[split] != POINT {
        return None;
    }
    let whole: i64 = match read_integer(buffer, start, split) {
        Some(whole) => whole,
        None => {
            return None;
        },
    };
    let ghost digits = buffer@.subrange(split + 1, len as int);
    let fraction: u64 = match read_unsigned(buffer, split + 1, len) {
        Some(fraction) => fraction,
        None => {
            proof {
                if parse_unsigned(digits) is Some {
                    crate::decimal::lemma_value_bound(digits);
                    crate::decimal::lemma_pow10_values();
                    lemma_pow10_grows(minor as nat, 18);
                    reveal_with_fuel(pow10, 19);
                }
            }
            return None;
        },
    };
    proof {
        crate::decimal::lemma_value_bound(digits);
        lemma_pow10_grows(minor as nat, 18);
        reveal_with_fuel(pow10, 19);
        assert(fraction < 1_000_000_000_000_000_000);
        assert(-9223372036854775808 * 1_000_000_000_000_000_000 <= whole * scale
            <= 9223372036854775808 * 1_000_000_000_000_000_000) by (nonlinear_arith)
            requires
                -9223372036854775808 <= whole <= 9223372036854775807,
                0 < scale <= 1_000_000_000_000_000_000,
        ;
    }
    let amount: i128 = (whole as i128) * (scale as i128) + (fraction as i128);
    if amount < -9223372036854775808 || amount > 9223372036854775807 {
        None
    } else {
        Some(amount as i64)
    }
}

/// A greater power of ten is no smaller.
pub proof fn lemma_pow10_grows(a: nat, b: nat)
    requires
        a <= b,
    ensures
        pow10(a) <= pow10(b),
        pow10(a) > 0,
    decreases b,
{
    if a < b {
        lemma_pow10_grows(a, (b - 1) as nat);
    } else if a > 0 {
        lemma_pow10_grows((a - 1) as nat, (a - 1) as nat);
    }
}

} // verus!
