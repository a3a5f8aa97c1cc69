//! Decimal numerals as ASCII bytes: what a digit string denotes, how numbers
//! are written in a field of fixed width, and how such a field is read back.

use vstd::prelude::*;

verus! {

pub const SPACE: u8 = 32;

pub const PLUS: u8 = 43;

pub const MINUS: u8 = 45;

pub const POINT: u8 = 46;

pub const NEWLINE: u8 = 10;

/// `b` is one of the ASCII digits.
pub open spec fn is_digit(b: u8) -> bool {
    48 <= b <= 57
}

/// `b` is a blank: a space, or one of the ASCII characters from tab to carriage return.
pub open spec fn is_blank(b: u8) -> bool {
    b == 32 || 9 <= b <= 13
}

/// Every byte of `s` is a digit.
pub open spec fn all_digits(s: Seq<u8>) -> bool {
    forall|i: int| 0 <= i < s.len() ==> is_digit(#[trigger] s[i])
}

/// Ten to the power `e`.
pub open spec fn pow10(e: nat) -> nat
    decreases e,
{
    if e == 0 {
        1
    } else {
        10 * pow10((e - 1) as nat)
    }
}

/// The number that the digit string `s` denotes, most significant digit first.
pub open spec fn digits_value(s: Seq<u8>) -> nat
    decreases s.len(),
{
    if s.len() == 0 {
        0
    } else {
        10 * digits_value(s.drop_last()) + (s.last() - 48) as nat
    }
}

/// The last `width` digits of `n`, with leading zeros.
pub open spec fn zero_padded(n: nat, width: nat) -> Seq<u8>
    decreases width,
{
    if width == 0 {
        Seq::empty()
    } else {
        zero_padded(n / 10, (width - 1) as nat).push((48 + n % 10) as u8)
    }
}

/// The digits of `n` without leading zeros; a single `0` for zero.
pub open spec fn shortest(n: nat) -> Seq<u8>
    decreases n,
{
    if n < 10 {
        seq![(48 + n) as u8]
    } else {
        shortest(n / 10).push((48 + n % 10) as u8)
    }
}

/// The text of an integer: a minus sign for a negative one, then its digits.
pub open spec fn integer_text(v: int) -> Seq<u8> {
    if v < 0 {
        seq![45u8] + shortest((-v) as nat)
    } else {
        shortest(v as nat)
    }
}

/// `text`, preceded by as many spaces as it takes to fill `width` bytes.
pub open spec fn right_aligned(text: Seq<u8>, width: nat) -> Seq<u8> {
    if text.len() >= width {
        text
    } else {
        Seq::new((width - text.len()) as nat, |i: int| 32u8) + text
    }
}

/// `s` without its leading blanks.
pub open spec fn trim_start(s: Seq<u8>) -> Seq<u8>
    decreases s.len(),
{
    if s.len() > 0 && is_blank(s[0]) {
        trim_start(s.skip(1))
    } else {
        s
    }
}

/// The number written by `s`, if `s` is one digit or more and nothing else.
pub open spec fn parse_unsigned(s: Seq<u8>) -> Option<nat> {
    if s.len() > 0 && all_digits(s) {
        Some(digits_value(s))
    } else {
        None
    }
}

/// The number written by `s`: digits, which a single `+` may precede.
pub open spec fn parse_natural(s: Seq<u8>) -> Option<nat> {
    if s.len() > 0 && s[0] == 43 {
        parse_unsigned(s.skip(1))
    } else {
        parse_unsigned(s)
    }
}

/// The integer written by `s`: digits, which a single `+` or `-` may precede.
pub open spec fn parse_integer(s: Seq<u8>) -> Option<int> {
    if s.len() > 0 && s[0] == 45 {
        match parse_unsigned(s.skip(1)) {
            Some(n) => Some(-(n as int)),
            None => None,
        }
    } else {
        match parse_natural(s) {
            Some(n) => Some(n as int),
            None => None,
        }
    }
}

/// A zero-padded numeral has the width asked for and holds digits only.
pub proof fn lemma_zero_padded_shape(n: nat, width: nat)
    ensures
        zero_padded(n, width).len() == width,
        all_digits(zero_padded(n, width)),
    decreases width,
{
    if width > 0 {
        lemma_zero_padded_shape(n / 10, (width - 1) as nat);
    }
}

/// A zero-padded numeral denotes the number it was made from, if that number fits the width.
pub proof fn lemma_zero_padded_value(n: nat, width: nat)
    requires
        n < pow10(width),
    ensures
        digits_value(zero_padded(n, width)) == n,
    decreases width,
{
    if width > 0 {
        let rest = zero_padded(n / 10, (width - 1) as nat);
        lemma_zero_padded_value(n / 10, (width - 1) as nat);
        lemma_zero_padded_shape(n / 10, (width - 1) as nat);
        assert(zero_padded(n, width).drop_last() =~= rest);
    }
}

/// The shortest numeral is not empty, holds digits only and denotes its number.
pub proof fn lemma_shortest(n: nat)
    ensures
        shortest(n).len() >= 1,
        all_digits(shortest(n)),
        digits_value(shortest(n)) == n,
        is_digit(shortest(n)[0]),
    decreases n,
{
    if n < 10 {
        let s = shortest(n);
        assert(s.drop_last() =~= Seq::<u8>::empty());
        assert(digits_value(s.drop_last()) == 0);
    } else {
        lemma_shortest(n / 10);
        assert(shortest(n).drop_last() =~= shortest(n / 10));
    }
}

/// The shortest numeral of a number below `10^digits` takes at most `digits` bytes.
pub proof fn lemma_shortest_len(n: nat, digits: nat)
    requires
        digits >= 1,
        n < pow10(digits),
    ensures
        shortest(n).len() <= digits,
    decreases n,
{
    if n >= 10 {
        if digits == 1 {
            assert(pow10(1) == 10) by {
                reveal_with_fuel(pow10, 2);
            }
        } else {
            lemma_shortest_len(n / 10, (digits - 1) as nat);
        }
    }
}

/// A longer digit string denotes no less than any of its prefixes.
pub proof fn lemma_prefix_value(s: Seq<u8>, k: int)
    requires
        0 <= k <= s.len(),
        all_digits(s),
    ensures
        digits_value(s.subrange(0, k)) <= digits_value(s),
    decreases s.len() - k,
{
    if k == s.len() {
        assert(s.subrange(0, k) =~= s);
    } else {
        lemma_prefix_value(s, k + 1);
        let longer = s.subrange(0, k + 1);
        assert(longer.drop_last() =~= s.subrange(0, k));
        assert(is_digit(s[k]));
    }
}

/// A digit string of `len` digits denotes a number below `10^len`.
pub proof fn lemma_value_bound(s: Seq<u8>)
    requires
        all_digits(s),
    ensures
        digits_value(s) < pow10(s.len()),
    decreases s.len(),
{
    if s.len() > 0 {
        lemma_value_bound(s.drop_last());
        assert(is_digit(s.last()));
    }
}

/// Trimming a right-aligned text gives the text back, if it starts with no blank.
pub proof fn lemma_trim_right_aligned(text: Seq<u8>, width: nat)
    requires
        text.len() > 0,
        !is_blank(text[0]),
    ensures
        trim_start(right_aligned(text, width)) == text,
        right_aligned(text, width).len() == if text.len() >= width {
            text.len()
        } else {
            width
        },
    decreases width,
{
    if text.len() < width {
        let padded = right_aligned(text, width);
        assert(padded[0] == 32u8);
        assert(padded.skip(1) =~= right_aligned(text, (width - 1) as nat));
        lemma_trim_right_aligned(text, (width - 1) as nat);
    }
}

/// Reading the text of an integer gives the integer.
pub proof fn lemma_integer_text(v: int)
    ensures
        parse_integer(integer_text(v)) == Some(v),
        integer_text(v).len() > 0,
        !is_blank(integer_text(v)[0]),
        v >= 0 ==> parse_natural(integer_text(v)) == Some(v as nat),
{
    if v < 0 {
        let digits = shortest((-v) as nat);
        lemma_shortest((-v) as nat);
        assert(integer_text(v).skip(1) =~= digits);
    } else {
        lemma_shortest(v as nat);
    }
}

/// `a` comes before `b` in the order of their bytes: where the two first
/// differ, the byte of `a` is the smaller one.
pub open spec fn text_precedes(a: Seq<u8>, b: Seq<u8>) -> bool {
    exists|k: int|
        0 <= k < a.len() && k < b.len() && #[trigger] a.subrange(0, k) == b.subrange(0, k) && a[k]
            < b[k]
}

/// Zero-padded numerals of one width stand in the order of their numbers.
pub proof fn lemma_zero_padded_order(m: nat, n: nat, width: nat)
    requires
        m < pow10(width),
        n < pow10(width),
    ensures
        m < n <==> text_precedes(zero_padded(m, width), zero_padded(n, width)),
    decreases width,
{
    let a = zero_padded(m, width);
    let b = zero_padded(n, width);
    lemma_zero_padded_shape(m, width);
    lemma_zero_padded_shape(n, width);
    if width == 0 {
        assert(!text_precedes(a, b));
    } else {
        let less = (width - 1) as nat;
        let x = zero_padded(m / 10, less);
        let y = zero_padded(n / 10, less);
        lemma_zero_padded_shape(m / 10, less);
        lemma_zero_padded_shape(n / 10, less);
        lemma_zero_padded_value(m / 10, less);
        lemma_zero_padded_value(n / 10, less);
        lemma_zero_padded_order(m / 10, n / 10, less);
        assert(a.drop_last() =~= x && b.drop_last() =~= y);
        if m < n {
            if m / 10 < n / 10 {
                let k = choose|k: int|
                    0 <= k < x.len() && k < y.len() && #[trigger] x.subrange(0, k) == y.subrange(
                        0,
                        k,
                    ) && x[k] < y[k];
                assert(a.subrange(0, k) =~= x.subrange(0, k));
                assert(b.subrange(0, k) =~= y.subrange(0, k));
                assert(a[k] == x[k] && b[k] == y[k]);
            } else {
                assert(a.subrange(0, less as int) =~= x);
                assert(b.subrange(0, less as int) =~= y);
                assert(a[less as int] < b[less as int]);
            }
            assert(text_precedes(a, b));
        }
        if text_precedes(a, b) {
            let k = choose|k: int|
                0 <= k < a.len() && k < b.len() && #[trigger] a.subrange(0, k) == b.subrange(0, k)
                    && a[k] < b[k];
            if k < less {
                assert(x.subrange(0, k) =~= a.subrange(0, k));
                assert(y.subrange(0, k) =~= b.subrange(0, k));
                assert(x[k] == a[k] && y[k] == b[k]);
                assert(text_precedes(x, y));
            } else {
                assert(x =~= a.subrange(0, k));
                assert(y =~= b.subrange(0, k));
                assert(digits_value(x) == digits_value(y));
            }
        }
    }
}

/// The powers of ten that the fixed-width fields of this crate use.
pub proof fn lemma_pow10_values()
    ensures
        pow10(0) == 1,
        pow10(1) == 10,
        pow10(2) == 100,
        pow10(3) == 1000,
        pow10(4) == 10000,
        pow10(6) == 1000000,
        pow10(8) == 100000000,
        pow10(13) == 10000000000000,
        pow10(14) == 100000000000000,
{
    reveal_with_fuel(pow10, 15);
}

/// Writes the last `width` digits of `n`, with leading zeros.
pub fn write_zero_padded(n: u64, width: usize) -> (out: Vec<u8>)
    ensures
        out@ == zero_padded(n as nat, width as nat),
    decreases width,
{
    if width == 0 {
        Vec::new()
    } else {
        let mut out = write_zero_padded(n / 10, width - 1);
        let digit: u8 = (n % 10) as u8;
        out.push(48 + digit);
        out
    }
}

/// Writes the digits of `n` without leading zeros.
pub fn write_shortest(n: u64) -> (out: Vec<u8>)
    ensures
        out@ == shortest(n as nat),
    decreases n,
{
    let digit: u8 = (n % 10) as u8;
    if n < 10 {
        let mut out = Vec::new();
        out.push(48 + digit);
        assert(out@ =~= shortest(n as nat));
        out
    } else {
        let mut out = write_shortest(n / 10);
        out.push(48 + digit);
        out
    }
}

/// Writes an integer: a minus sign for a negative one, then its digits.
pub fn write_integer(v: i64) -> (out: Vec<u8>)
    ensures
        out@ == integer_text(v as int),
{
    if v < 0 {
        let magnitude: u64 = (-(v + 1)) as u64 + 1;
        let mut out: Vec<u8> = Vec::new();
        out.push(MINUS);
        let mut digits = write_shortest(magnitude);
        out.append(&mut digits);
        assert(out@ =~= seq![45u8] + shortest((-v) as nat));
        out
    } else {
        write_shortest(v as u64)
    }
}

/// The characters of an ASCII text.
pub open spec fn as_chars(text: Seq<u8>) -> Seq<char> {
    Seq::new(text.len(), |i: int| text[i] as char)
}

/// The bytes that the numerals of this crate are made of: digits, the two
/// signs, the point and the space.
pub open spec fn is_numeral_byte(b: u8) -> bool {
    is_digit(b) || b == 32 || b == 43 || b == 45 || b == 46
}

/// The one-character string of a numeral byte.
fn numeral_str(b: u8) -> (s: &'static str)
    requires
        is_numeral_byte(b),
    ensures
        s@ == seq![b as char],
{
    proof {
        reveal_strlit("0");
        reveal_strlit("1");
        reveal_strlit("2");
        reveal_strlit("3");
        reveal_strlit("4");
        reveal_strlit("5");
        reveal_strlit("6");
        reveal_strlit("7");
        reveal_strlit("8");
        reveal_strlit("9");
        reveal_strlit(" ");
        reveal_strlit("+");
        reveal_strlit("-");
        reveal_strlit(".");
    }
    let s = match b {
        48 => "0",
        49 => "1",
        50 => "2",
        51 => "3",
        52 => "4",
        53 => "5",
        54 => "6",
        55 => "7",
        56 => "8",
        57 => "9",
        32 => " ",
        43 => "+",
        45 => "-",
        _ => ".",
    };
    assert(s@ =~= seq![b as char]);
    s
}

/// The string of a numeral.
pub fn numeral_string(text: &Vec<u8>) -> (s: String)
    requires
        forall|i: int| 0 <= i < text@.len() ==> is_numeral_byte(#[trigger] text@[i]),
    ensures
        s@ == as_chars(text@),
{
    let mut s = String::new();
    let mut i: usize = 0;
    assert(s@ =~= as_chars(text@.subrange(0, 0)));
    while i < text.len()
        invariant
            i <= text@.len(),
            forall|k: int| 0 <= k < text@.len() ==> is_numeral_byte(#[trigger] text@[k]),
            s@ == as_chars(text@.subrange(0, i as int)),
        decreases text@.len() - i,
    {
        s.append(numeral_str(text[i]));
        i += 1;
        assert(s@ =~= as_chars(text@.subrange(0, i as int)));
    }
    assert(text@.subrange(0, i as int) =~= text@);
    s
}

/// Puts `text` at the right end of a field of `width` bytes, after spaces.
pub fn align_right(text: Vec<u8>, width: usize) -> (out: Vec<u8>)
    ensures
        out@ == right_aligned(text@, width as nat),
{
    if text.len() >= width {
        return text;
    }
    let fill: usize = width - text.len();
    let mut out: Vec<u8> = Vec::new();
    let mut i: usize = 0;
    while i < fill
        invariant
            i <= fill,
            out@ == Seq::new(i as nat, |k: int| 32u8),
        decreases fill - i,
    {
        out.push(SPACE);
        i += 1;
        assert(out@ =~= Seq::new(i as nat, |k: int| 32u8));
    }
    let mut j: usize = 0;
    while j < text.len()
        invariant
            j <= text.len(),
            fill + text.len() == width,
            out@ == Seq::new(fill as nat, |k: int| 32u8) + text@.subrange(0, j as int),
        decreases text.len() - j,
    {
        out.push(text[j]);
        j += 1;
        assert(out@ =~= Seq::new(fill as nat, |k: int| 32u8) + text@.subrange(0, j as int));
    }
    assert(text@.subrange(0, j as int) =~= text@);
    out
}

/// The index of the first byte of `buffer` that is no blank.
pub fn skip_blanks(buffer: &[u8]) -> (start: usize)
    ensures
        start <= buffer@.len(),
        buffer@.skip(start as int) == trim_start(buffer@),
{
    let mut i: usize = 0;
    assert(buffer@.skip(0) =~= buffer@);
    while i < buffer.len() && (buffer[i] == 32 || (9 <= buffer[i] && buffer[i] <= 13))
        invariant
            i <= buffer@.len(),
            trim_start(buffer@.skip(i as int)) == trim_start(buffer@),
        decreases buffer@.len() - i,
    {
        assert(buffer@.skip(i as int).skip(1) =~= buffer@.skip(i + 1));
        i += 1;
    }
    i
}

/// Reads `buffer[from..to]` as digits; `None` where it is empty, holds anything
/// but digits, or denotes more than a `u64` holds.
pub fn read_unsigned(buffer: &[u8], from: usize, to: usize) -> (r: Option<u64>)
    requires
        from <= to <= buffer@.len(),
    ensures
        r == match parse_unsigned(buffer@.subrange(from as int, to as int)) {
            Some(n) => if n <= u64::MAX {
                Some(n as u64)
            } else {
                None
            },
            None => None,
        },
{
    let ghost s = buffer@.subrange(from as int, to as int);
    if from == to {
        return None;
    }
    let mut acc: u64 = 0;
    let mut i: usize = from;
    assert(s.subrange(0, 0) =~= Seq::<u8>::empty());
    while i < to
        invariant
            from <= i <= to <= buffer@.len(),
            s == buffer@.subrange(from as int, to as int),
            all_digits(s.subrange(0, i - from)),
            acc == digits_value(s.subrange(0, i - from)),
        decreases to - i,
    {
        let b: u8 = buffer[i];
        assert(b == s[i - from]);
        if b < 48 || b > 57 {
            return None;
        }
        let digit: u64 = (b - 48) as u64;
        proof {
            let next = s.subrange(0, i - from + 1);
            assert(next.drop_last() =~= s.subrange(0, i - from));
            assert(next.last() == b);
            assert(all_digits(next)) by {
                assert forall|k: int| 0 <= k < next.len() implies is_digit(#[trigger] next[k]) by {
                    if k < i - from {
                        assert(next[k] == s.subrange(0, i - from)[k]);
                    }
                }
            }
            assert(digits_value(next) == 10 * acc + digit);
        }
        if acc > (u64::MAX - digit) / 10 {
            proof {
                let next = s.subrange(0, i - from + 1);
                assert(digits_value(next) > u64::MAX);
                if all_digits(s) {
                    lemma_prefix_value(s, i - from + 1);
                }
            }
            return None;
        }
        acc = acc * 10 + digit;
        i += 1;
    }
    assert(s.subrange(0, i - from) =~= s);
    Some(acc)
}

/// Reads `buffer[from..to]` as digits that a single `+` may precede.
pub fn read_natural(buffer: &[u8], from: usize, to: usize) -> (r: Option<u64>)
    requires
        from <= to <= buffer@.len(),
    ensures
        r == match parse_natural(buffer@.subrange(from as int, to as int)) {
            Some(n) => if n <= u64::MAX {
                Some(n as u64)
            } else {
                None
            },
            None => None,
        },
{
    let ghost s = buffer@.subrange(from as int, to as int);
    if from < to && buffer[from] == PLUS {
        assert(s[0] == 43);
        assert(s.skip(1) =~= buffer@.subrange(from + 1, to as int));
        read_unsigned(buffer, from + 1, to)
    } else {
        read_unsigned(buffer, from, to)
    }
}

/// Reads `buffer[from..to]` as an integer of at most 64 bits: digits that a
/// single `+` or `-` may precede.
pub fn read_integer(buffer: &[u8], from: usize, to: usize) -> (r: Option<i64>)
    requires
        from <= to <= buffer@.len(),
    ensures
        r == match parse_integer(buffer@.subrange(from as int, to as int)) {
            Some(v) => if i64::MIN <= v <= i64::MAX {
                Some(v as i64)
            } else {
                None
            },
            None => None,
        },
{
    let ghost s = buffer@.subrange(from as int, to as int);
    if from < to && buffer[from] == MINUS {
        assert(s[0] == 45);
        assert(s.skip(1) =~= buffer@.subrange(from + 1, to as int));
        match read_unsigned(buffer, from + 1, to) {
            Some(n) => {
                if n <= 9223372036854775807 {
                    let v: i64 = n as i64;
                    Some(-v)
                } else if n == 9223372036854775808 {
                    Some(i64::MIN)
                } else {
                    None
                }
            },
            None => None,
        }
    } else {
        assert(from < to ==> s[0] == buffer@[from as int]);
        match read_natural(buffer, from, to) {
            Some(n) => {
                if n <= 9223372036854775807 {
                    Some(n as i64)
                } else {
                    None
                }
            },
            None => None,
        }
    }
}

} // verus!
