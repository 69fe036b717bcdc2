//! Rewriting numbers in scientific notation as plain fixed-point decimals.
//!
//! The input is the text that an arbitrary-precision float prints for
//! itself: either a plain decimal such as `123.456`, or a mantissa, the
//! marker `e` and a signed decimal exponent, such as `-1.5e-20`.  The
//! output never holds an exponent marker.

use vstd::prelude::*;
use crate::digits::{all_digits, decimal_value, digit_value, is_digit, lemma_decimal_value_prefix};
use crate::error::FormatError;
use crate::text::{chars_of, find_char, first_index, push_range, push_zeros, string_of, zeros};

verus! {

/// The exponent written by `s`: an optional `+` or `-`, then at least one
/// decimal digit, the whole within the range of a 128-bit signed integer.
pub open spec fn exponent_of(s: Seq<char>) -> Option<int> {
    let signed = s.len() > 0 && (s[0] == '+' || s[0] == '-');
    let digits = if signed { s.drop_first() } else { s };
    let magnitude = decimal_value(digits);
    let value = if s.len() > 0 && s[0] == '-' { -magnitude } else { magnitude };
    if digits.len() > 0 && all_digits(digits) && i128::MIN <= value <= i128::MAX {
        Some(value)
    } else {
        None
    }
}

/// The test that tells a mantissa's digits from its decimal points.
pub open spec fn not_point() -> spec_fn(char) -> bool {
    |c: char| c != '.'
}

/// The digits of an unsigned mantissa: its characters without the decimal
/// points, and a final `0` where the mantissa ends in a decimal point.
pub open spec fn mantissa_digits(body: Seq<char>) -> Seq<char> {
    let stripped = body.filter(not_point());
    if body.len() > 0 && body.last() == '.' {
        stripped.push('0')
    } else {
        stripped
    }
}

/// The digits `digits` with the decimal point set after the first `point`
/// of them; zeros fill the gap where `point` lies outside the digits.
pub open spec fn place_point(digits: Seq<char>, point: int) -> Seq<char> {
    if point <= 0 {
        seq!['0', '.'] + zeros(-point) + digits
    } else if point >= digits.len() {
        digits + zeros(point - digits.len()) + seq!['.', '0']
    } else {
        digits.take(point) + seq!['.'] + digits.skip(point)
    }
}

/// The mantissa `mantissa` with its decimal point moved `exponent` places
/// to the right (to the left where `exponent` is negative).
pub open spec fn shift_point(mantissa: Seq<char>, exponent: int) -> Seq<char> {
    let negative = mantissa.len() > 0 && mantissa[0] == '-';
    let body = if negative { mantissa.drop_first() } else { mantissa };
    let placed = place_point(mantissa_digits(body), first_index(body, '.') + exponent);
    if negative {
        seq!['-'] + placed
    } else {
        placed
    }
}

/// What `normalize` returns for the text `s`.
///
/// A text without the marker `e` stands for itself.  Otherwise the text
/// is cut at the first `e`; what follows must be an exponent, and what
/// precedes is the mantissa whose decimal point is moved.
pub open spec fn normalized(s: Seq<char>) -> Result<Seq<char>, FormatError> {
    let marker = first_index(s, 'e');
    if marker == s.len() {
        Ok(s)
    } else {
        match exponent_of(s.skip(marker + 1)) {
            Some(exponent) => Ok(shift_point(s.take(marker), exponent)),
            None => Err(FormatError::InvalidExponent),
        }
    }
}

/// Whether the outcome `result` holds the text or the error of `expected`.
pub open spec fn shows(
    result: Result<String, FormatError>,
    expected: Result<Seq<char>, FormatError>,
) -> bool {
    match (result, expected) {
        (Ok(text), Ok(s)) => text@ == s,
        (Err(e), Err(f)) => e == f,
        _ => false,
    }
}

/// Reads the exponent that starts at `from`.
#[verifier::loop_isolation(false)]
pub fn parse_exponent(v: &Vec<char>, from: usize) -> (exponent: Option<i128>)
    requires
        from <= v.len(),
    ensures
        exponent_of(v@.skip(from as int)) == match exponent {
            Some(e) => Some(e as int),
            None => None::<int>,
        },
{
    let ghost s = v@.skip(from as int);
    if from == v.len() {
        return None;
    }
    let negative = v[from] == '-';
    let start: usize = if v[from] == '+' || v[from] == '-' { from + 1 } else { from };
    let ghost digits = v@.skip(start as int);
    assert(digits =~= if start > from { s.drop_first() } else { s });
    if start == v.len() {
        return None;
    }
    let limit: u128 = if negative {
        0x8000_0000_0000_0000_0000_0000_0000_0000
    } else {
        0x7fff_ffff_ffff_ffff_ffff_ffff_ffff_ffff
    };
    let mut magnitude: u128 = 0;
    let mut i: usize = start;
    while i < v.len()
        invariant
            start <= i <= v.len(),
            digits == v@.skip(start as int),
            all_digits(digits.take(i - start)),
            magnitude == decimal_value(digits.take(i - start)),
            magnitude <= limit,
            limit <= 0x8000_0000_0000_0000_0000_0000_0000_0000,
        decreases v.len() - i,
    {
        let c = v[i];
        if !(c >= '0' && c <= '9') {
            assert(digits[i - start] == c);
            assert(!is_digit(digits[i - start]));
            return None;
        }
        let d: u128 = (c as u32 - '0' as u32) as u128;
        assert(d == digit_value(c) && d <= 9);
        proof {
            let next = digits.take(i - start + 1);
            assert(next.drop_last() =~= digits.take(i - start));
            assert(next.last() == c);
            assert(decimal_value(next) == magnitude * 10 + d);
            assert forall|j: int| 0 <= j < next.len() implies is_digit(#[trigger] next[j]) by {
                if j < i - start {
                    assert(digits.take(i - start)[j] == next[j]);
                }
            }
        }
        if magnitude > (limit - d) / 10 {
            proof {
                if all_digits(digits) {
                    lemma_decimal_value_prefix(digits, i - start + 1);
                }
            }
            return None;
        }
        magnitude = magnitude * 10 + d;
        i += 1;
    }
    assert(digits.take(i - start) =~= digits);
    if negative {
        if magnitude == 0x8000_0000_0000_0000_0000_0000_0000_0000 {
            Some(i128::MIN)
        } else {
            Some(-(magnitude as i128))
        }
    } else {
        Some(magnitude as i128)
    }
}

/// Collects the digits of the unsigned mantissa `v[from..to]`, whose first
/// decimal point, if it has one, stands at `point`.
fn collect_digits(v: &Vec<char>, from: usize, to: usize, point: usize) -> (digits: Vec<char>)
    requires
        from <= point <= to <= v.len(),
        forall|j: int| from <= j < point ==> v@[j] != '.',
    ensures
        digits@ == mantissa_digits(v@.subrange(from as int, to as int)),
        digits.len() >= point - from,
{
    let ghost body = v@.subrange(from as int, to as int);
    let mut digits: Vec<char> = Vec::new();
    let mut i: usize = from;
    while i < to
        invariant
            from <= point <= to <= v.len(),
            from <= i <= to,
            body == v@.subrange(from as int, to as int),
            digits@ == body.take(i - from).filter(not_point()),
            forall|j: int| from <= j < point ==> v@[j] != '.',
            i <= point ==> digits.len() == i - from,
            i > point ==> digits.len() >= point - from,
        decreases to - i,
    {
        proof {
            reveal(Seq::filter);
            let next = body.take(i - from + 1);
            assert(next.drop_last() =~= body.take(i - from));
            assert(next.last() == v@[i as int]);
        }
        if v[i] != '.' {
            digits.push(v[i]);
        }
        i += 1;
    }
    assert(body.take(to - from) =~= body);
    if from < to && v[to - 1] == '.' {
        digits.push('0');
    }
    digits
}

/// Appends `digits` to `out` with the decimal point at `point + exponent`.
fn push_placed(out: &mut Vec<char>, digits: &Vec<char>, point: usize, exponent: i128)
    requires
        point <= digits.len(),
    ensures
        final(out)@ == old(out)@ + place_point(digits@, point + exponent),
{
    let ghost placed = place_point(digits@, point + exponent);
    assert(digits@.subrange(0, digits.len() as int) =~= digits@);
    if exponent <= -(point as i128) {
        let gap: u128 = if exponent == i128::MIN {
            0x8000_0000_0000_0000_0000_0000_0000_0000u128 - point as u128
        } else {
            (-exponent) as u128 - point as u128
        };
        assert(gap == -(point + exponent));
        out.push('0');
        out.push('.');
        push_zeros(out, gap);
        push_range(out, digits, 0, digits.len());
        assert(out@ =~= old(out)@ + (seq!['0', '.'] + zeros(gap as int) + digits@));
    } else if exponent >= digits.len() as i128 - point as i128 {
        let gap: u128 = (exponent - (digits.len() as i128 - point as i128)) as u128;
        assert(gap == point + exponent - digits.len());
        push_range(out, digits, 0, digits.len());
        push_zeros(out, gap);
        out.push('.');
        out.push('0');
        assert(out@ =~= old(out)@ + (digits@ + zeros(gap as int) + seq!['.', '0']));
    } else {
        let split: usize = (point as i128 + exponent) as usize;
        push_range(out, digits, 0, split);
        out.push('.');
        push_range(out, digits, split, digits.len());
        assert(digits@.subrange(0, split as int) =~= digits@.take(split as int));
        assert(digits@.subrange(split as int, digits.len() as int) =~= digits@.skip(split as int));
        assert(out@ =~= old(out)@ + (digits@.take(split as int) + seq!['.'] + digits@.skip(
            split as int,
        )));
    }
}

/// Moves the decimal point of the mantissa `v[..marker]` by `exponent` places.
fn shift(v: &Vec<char>, marker: usize, exponent: i128) -> (out: Vec<char>)
    requires
        marker <= v.len(),
    ensures
        out@ == shift_point(v@.take(marker as int), exponent as int),
{
    let ghost mantissa = v@.take(marker as int);
    let negative = marker > 0 && v[0] == '-';
    let begin: usize = if negative { 1 } else { 0 };
    assert(v@.subrange(begin as int, marker as int) =~= if negative {
        mantissa.drop_first()
    } else {
        mantissa
    });
    let point: usize = find_char(v, begin, marker, '.');
    let digits = collect_digits(v, begin, marker, point);
    let mut out: Vec<char> = Vec::new();
    if negative {
        out.push('-');
    }
    push_placed(&mut out, &digits, point - begin, exponent);
    out
}

/// Rewrites the text of a number without an exponent marker.
///
/// A text that holds no `e` is returned as it is.  Otherwise the text is
/// read as mantissa, `e`, exponent, and the mantissa is returned with its
/// decimal point moved by the exponent: always with a decimal point, and
/// with at least one digit on either side of it.  The mantissa may have
/// any number of digits before its decimal point.  The result is an error
/// exactly where the exponent cannot be read.
pub fn normalize(native: &str) -> (result: Result<String, FormatError>)
    ensures
        shows(result, normalized(native@)),
{
    let v = chars_of(native);
    let marker = find_char(&v, 0, v.len(), 'e');
    assert(v@.subrange(0, v.len() as int) =~= v@);
    if marker == v.len() {
        return Ok(string_of(&v));
    }
    assert(v@.subrange(marker + 1, v.len() as int) =~= v@.skip(marker + 1));
    match parse_exponent(&v, marker + 1) {
        None => Err(FormatError::InvalidExponent),
        Some(exponent) => {
            let out = shift(&v, marker, exponent);
            Ok(string_of(&out))
        },
    }
}

} // verus!
