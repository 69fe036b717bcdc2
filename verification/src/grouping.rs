//! Thousands separators and fraction trimming for plain decimal text.

use vstd::prelude::*;
use crate::text::{
    chars_of, find_char, find_other, first_index, first_other, push_range, push_zeros, string_of,
    zeros,
};

verus! {

/// The digits `digits` with a comma before every group of three, counted
/// from the right.
pub open spec fn grouped(digits: Seq<char>) -> Seq<char>
    decreases digits.len(),
{
    if digits.len() <= 3 {
        digits
    } else {
        grouped(digits.take(digits.len() - 3)) + seq![','] + digits.skip(digits.len() - 3)
    }
}

/// The integer part `left` with its digits grouped; a leading minus sign
/// stays in front and takes no part in the grouping.
pub open spec fn grouped_integer(left: Seq<char>) -> Seq<char> {
    if left.len() > 0 && left[0] == '-' {
        seq!['-'] + grouped(left.drop_first())
    } else {
        grouped(left)
    }
}

/// The number of fraction characters to show.
///
/// A negative `places` asks for all of them.  Without `significant` it is
/// `places`.  With it, it is `places` more than the length of the leading
/// run of that character; a fraction made of that character alone is
/// shown whole.
pub open spec fn fraction_width(right: Seq<char>, places: int, significant: Option<char>) -> int {
    if places < 0 {
        right.len() as int
    } else {
        match significant {
            None => places,
            Some(c) => if first_other(right, c) == right.len() {
                right.len() as int
            } else {
                first_other(right, c) + places
            },
        }
    }
}

/// The fraction `right` cut, without rounding, or filled with zeros to
/// `width` characters.
pub open spec fn fitted(right: Seq<char>, width: int) -> Seq<char> {
    if width <= right.len() {
        right.take(width)
    } else {
        right + zeros(width - right.len())
    }
}

/// What `format_grouped` returns for the text `value`.
///
/// A text without a decimal point stands for itself.  Otherwise it is cut
/// at the first decimal point; the integer part is grouped, the fraction
/// is fitted, and the decimal point is left out where no fraction
/// character remains.
pub open spec fn formatted(value: Seq<char>, places: int, significant: Option<char>) -> Seq<char> {
    let dot = first_index(value, '.');
    if dot == value.len() {
        value
    } else {
        let right = value.skip(dot + 1);
        let fraction = fitted(right, fraction_width(right, places, significant));
        let tail = if fraction.len() > 0 { seq!['.'] + fraction } else { fraction };
        grouped_integer(value.take(dot)) + tail
    }
}

/// Appends the digits `v[from..to]`, grouped, to `out`.
fn push_grouped(out: &mut Vec<char>, v: &Vec<char>, from: usize, to: usize)
    requires
        from <= to <= v.len(),
    ensures
        final(out)@ == old(out)@ + grouped(v@.subrange(from as int, to as int)),
{
    if from == to {
        assert(out@ =~= out@ + grouped(v@.subrange(from as int, to as int)));
        return ;
    }
    let count: usize = to - from;
    let first: usize = count - 3 * ((count - 1) / 3);
    push_range(out, v, from, from + first);
    let mut k: usize = from + first;
    while k < to
        invariant
            from < k <= to <= v.len(),
            (to - k) % 3 == 0,
            out@ == old(out)@ + grouped(v@.subrange(from as int, k as int)),
        decreases to - k,
    {
        proof {
            let next = v@.subrange(from as int, k + 3);
            assert(next.take(next.len() - 3) =~= v@.subrange(from as int, k as int));
            assert(next.skip(next.len() - 3) =~= v@.subrange(k as int, k + 3));
        }
        let ghost before = out@;
        out.push(',');
        push_range(out, v, k, k + 3);
        assert(out@ =~= before + seq![','] + v@.subrange(k as int, k + 3));
        k += 3;
    }
}

/// Appends the fraction `v[from..]`, fitted to its width, to `out`; the
/// decimal point goes before it where any character is shown.
fn push_fraction(
    out: &mut Vec<char>,
    v: &Vec<char>,
    from: usize,
    decimal_places: i32,
    significant: Option<char>,
)
    requires
        from <= v.len(),
    ensures
        ({
            let right = v@.skip(from as int);
            let fraction = fitted(right, fraction_width(right, decimal_places as int, significant));
            final(out)@ == old(out)@ + if fraction.len() > 0 {
                seq!['.'] + fraction
            } else {
                fraction
            }
        }),
{
    let ghost right = v@.skip(from as int);
    assert(v@.subrange(from as int, v.len() as int) =~= right);
    let length: usize = v.len() - from;
    let width: u128 = if decimal_places < 0 {
        length as u128
    } else {
        match significant {
            None => decimal_places as u128,
            Some(c) => {
                let k = find_other(v, from, v.len(), c);
                if k == v.len() {
                    length as u128
                } else {
                    (k - from) as u128 + decimal_places as u128
                }
            },
        }
    };
    assert(width == fraction_width(right, decimal_places as int, significant));
    if width == 0 {
        assert(fitted(right, 0).len() == 0);
        assert(out@ =~= old(out)@ + fitted(right, 0));
    } else if width <= length as u128 {
        out.push('.');
        push_range(out, v, from, from + width as usize);
        assert(v@.subrange(from as int, from + width) =~= right.take(width as int));
        assert(out@ =~= old(out)@ + (seq!['.'] + right.take(width as int)));
    } else {
        out.push('.');
        push_range(out, v, from, v.len());
        push_zeros(out, width - length as u128);
        assert(fitted(right, width as int).len() > 0);
        assert(out@ =~= old(out)@ + (seq!['.'] + (right + zeros(width - length))));
    }
}

/// Formats a plain decimal text for display.
///
/// A text without a decimal point is returned as it is.  Otherwise the
/// digits before the first decimal point are grouped in threes by commas,
/// and the fraction is shown at the width that `fraction_width` gives:
/// cut off (never rounded) where it is longer, filled with zeros where it
/// is shorter.  With `decimal_places` negative the fraction is untouched.
/// With `significant` set, the leading run of that character does not
/// count towards `decimal_places`.  The decimal point is left out where
/// no fraction character is shown.
pub fn format_grouped(value: &str, decimal_places: i32, significant: Option<char>) -> (text: String)
    ensures
        text@ == formatted(value@, decimal_places as int, significant),
{
    let v = chars_of(value);
    let dot = find_char(&v, 0, v.len(), '.');
    assert(v@.subrange(0, v.len() as int) =~= v@);
    if dot == v.len() {
        return string_of(&v);
    }
    let mut out: Vec<char> = Vec::new();
    let begin: usize = if dot > 0 && v[0] == '-' { 1 } else { 0 };
    if begin == 1 {
        out.push('-');
    }
    assert(v@.subrange(begin as int, dot as int) =~= if begin == 1 {
        v@.take(dot as int).drop_first()
    } else {
        v@.take(dot as int)
    });
    push_grouped(&mut out, &v, begin, dot);
    assert(out@ =~= grouped_integer(v@.take(dot as int)));
    push_fraction(&mut out, &v, dot + 1, decimal_places, significant);
    string_of(&out)
}

} // verus!
