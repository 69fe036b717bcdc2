//! The number that a plain decimal text writes, and the law that moving
//! the decimal point by an exponent multiplies it by the power of ten.

use vstd::arithmetic::power::{lemma_pow0, lemma_pow1, lemma_pow_positive, pow};
use vstd::prelude::*;
use crate::digits::{all_digits, decimal_value, is_digit};
use crate::fraction::Fraction;
use crate::normalize::{
    exponent_of, mantissa_digits, normalized, not_point, place_point, shift_point,
};
use crate::text::{first_index, lemma_first_index, zeros};

verus! {

/// The number `value * 10^power`.
pub open spec fn shifted(value: int, power: int) -> Fraction {
    if power >= 0 {
        Fraction { num: value * pow(10, power as nat), den: 1 }
    } else {
        Fraction { num: value, den: pow(10, (-power) as nat) }
    }
}

/// The number that the unsigned decimal text `body` writes: its digits
/// read as an integer, over ten to the number of characters after the
/// first decimal point.
pub open spec fn unsigned_value(body: Seq<char>) -> Fraction {
    let point = first_index(body, '.');
    let places = if point == body.len() { 0 } else { body.len() - point - 1 };
    Fraction { num: decimal_value(body.filter(not_point())), den: pow(10, places as nat) }
}

/// The number that the decimal text `text` writes, after a minus sign
/// its negation.
pub open spec fn plain_value(text: Seq<char>) -> Fraction {
    if text.len() > 0 && text[0] == '-' {
        unsigned_value(text.drop_first()).neg()
    } else {
        unsigned_value(text)
    }
}

/// The number that the mantissa `mantissa` writes, times `10^exponent`:
/// the digits of the mantissa read as an integer, times ten to the
/// exponent less the number of digits after its decimal point.
pub open spec fn scientific_value(mantissa: Seq<char>, exponent: int) -> Fraction {
    let negative = mantissa.len() > 0 && mantissa[0] == '-';
    let body = if negative { mantissa.drop_first() } else { mantissa };
    let digits = mantissa_digits(body);
    let value = shifted(
        decimal_value(digits),
        first_index(body, '.') + exponent - digits.len(),
    );
    if negative {
        value.neg()
    } else {
        value
    }
}

/// Digits in front of digits count for ten to the number of digits behind.
pub proof fn lemma_decimal_value_concat(a: Seq<char>, b: Seq<char>)
    ensures
        decimal_value(a + b) == decimal_value(a) * pow(10, b.len()) + decimal_value(b),
    decreases b.len(),
{
    if b.len() == 0 {
        assert(a + b =~= a);
        lemma_pow0(10);
    } else {
        let front = b.drop_last();
        assert((a + b).drop_last() =~= a + front);
        assert((a + b).last() == b.last());
        lemma_decimal_value_concat(a, front);
        let (x, y, p) = (decimal_value(a), decimal_value(front), pow(10, front.len()));
        assert(pow(10, b.len()) == 10 * p) by {
            reveal_with_fuel(pow, 2);
        }
        assert((x * p + y) * 10 == x * (10 * p) + y * 10) by (nonlinear_arith);
    }
}

/// Zeros write the number zero.
pub proof fn lemma_decimal_value_zeros(k: int)
    ensures
        decimal_value(zeros(k)) == 0,
        all_digits(zeros(k)),
    decreases k,
{
    if k > 0 {
        assert(zeros(k).drop_last() =~= zeros(k - 1));
        lemma_decimal_value_zeros(k - 1);
    }
}

/// Digits hold no decimal point.
pub proof fn lemma_filter_digits(s: Seq<char>)
    requires
        all_digits(s),
    ensures
        s.filter(not_point()) == s,
    decreases s.len(),
{
    reveal(Seq::filter);
    if s.len() > 0 {
        assert(is_digit(s.last()));
        assert forall|i: int| 0 <= i < s.drop_last().len() implies is_digit(
            #[trigger] s.drop_last()[i],
        ) by {
            assert(s.drop_last()[i] == s[i]);
        }
        lemma_filter_digits(s.drop_last());
        assert(s.drop_last().push(s.last()) =~= s);
    } else {
        assert(s.filter(not_point()) =~= s);
    }
}

/// The text that `place_point` makes of the digits `digits` writes the
/// number of the digits times ten to `point` less their count; it holds
/// one decimal point and does not start with a minus sign.
pub proof fn lemma_placed_value(digits: Seq<char>, point: int)
    requires
        all_digits(digits),
    ensures
        place_point(digits, point).len() > 0,
        place_point(digits, point)[0] != '-',
        unsigned_value(place_point(digits, point)).wf(),
        shifted(decimal_value(digits), point - digits.len()).wf(),
        unsigned_value(place_point(digits, point)).same(
            shifted(decimal_value(digits), point - digits.len()),
        ),
{
    let text = place_point(digits, point);
    let count = digits.len() as int;
    let value = decimal_value(digits);
    lemma_filter_digits(digits);
    lemma_pow0(10);
    lemma_pow1(10);
    if point <= 0 {
        let gap = zeros(-point);
        let head = seq!['0', '.'];
        lemma_decimal_value_zeros(-point);
        lemma_filter_digits(gap);
        assert(text =~= head + gap + digits);
        assert(text[1] == '.');
        lemma_first_index(text, '.', 1);
        assert(head.filter(not_point()) =~= seq!['0']) by {
            reveal_with_fuel(Seq::filter, 3);
            assert(head.drop_last() =~= seq!['0']);
            assert(seq!['0'].drop_last() =~= Seq::<char>::empty());
        }
        Seq::filter_distributes_over_add(head, gap, not_point());
        Seq::filter_distributes_over_add(head + gap, digits, not_point());
        let zero = seq!['0'];
        assert(decimal_value(zero) == 0) by {
            reveal_with_fuel(decimal_value, 2);
            assert(zero.drop_last() =~= Seq::<char>::empty());
        }
        lemma_decimal_value_concat(zero, gap);
        lemma_decimal_value_concat(zero + gap, digits);
        assert(decimal_value(zero + gap) == 0) by (nonlinear_arith)
            requires
                decimal_value(zero + gap) == 0 * pow(10, gap.len()) + 0,
        ;
        assert(decimal_value(zero + gap + digits) == value) by (nonlinear_arith)
            requires
                decimal_value(zero + gap + digits) == 0 * pow(10, digits.len()) + value,
        ;
        lemma_pow_positive(10, (count - point) as nat);
        assert(unsigned_value(text).den == pow(10, (count - point) as nat));
        if point - count == 0 {
            assert(value * 1 * 1 == value * 1) by (nonlinear_arith);
        }
    } else if point >= count {
        let gap = zeros(point - count);
        let tail = seq!['.', '0'];
        lemma_decimal_value_zeros(point - count);
        lemma_filter_digits(gap);
        assert(text =~= digits + gap + tail);
        assert(text[point] == '.');
        assert forall|j: int| 0 <= j < point implies text[j] != '.' by {
            if j < count {
                assert(text[j] == digits[j]);
                assert(is_digit(digits[j]));
            } else {
                assert(text[j] == gap[j - count]);
            }
        }
        lemma_first_index(text, '.', point);
        let zero = seq!['0'];
        assert(tail.filter(not_point()) =~= zero) by {
            reveal_with_fuel(Seq::filter, 3);
            assert(tail.drop_last() =~= seq!['.']);
            assert(seq!['.'].drop_last() =~= Seq::<char>::empty());
        }
        Seq::filter_distributes_over_add(digits, gap, not_point());
        Seq::filter_distributes_over_add(digits + gap, tail, not_point());
        assert(decimal_value(zero) == 0) by {
            reveal_with_fuel(decimal_value, 2);
            assert(zero.drop_last() =~= Seq::<char>::empty());
        }
        lemma_decimal_value_concat(digits, gap);
        lemma_decimal_value_concat(digits + gap, zero);
        let power = pow(10, (point - count) as nat);
        lemma_pow_positive(10, (point - count) as nat);
        assert(unsigned_value(text).den == 10);
        assert(unsigned_value(text).num == (value * power + 0) * 10 + 0);
        assert(((value * power + 0) * 10 + 0) * 1 == (value * power) * 10) by (nonlinear_arith);
    } else {
        assert(text =~= digits.take(point) + seq!['.'] + digits.skip(point));
        assert(text[point] == '.');
        assert forall|j: int| 0 <= j < point implies text[j] != '.' by {
            assert(text[j] == digits[j]);
            assert(is_digit(digits[j]));
        }
        lemma_first_index(text, '.', point);
        assert(all_digits(digits.take(point)));
        assert(all_digits(digits.skip(point)));
        lemma_filter_digits(digits.take(point));
        lemma_filter_digits(digits.skip(point));
        assert(seq!['.'].filter(not_point()) =~= Seq::<char>::empty()) by {
            reveal_with_fuel(Seq::filter, 2);
            assert(seq!['.'].drop_last() =~= Seq::<char>::empty());
        }
        Seq::filter_distributes_over_add(digits.take(point), seq!['.'], not_point());
        Seq::filter_distributes_over_add(
            digits.take(point) + seq!['.'],
            digits.skip(point),
            not_point(),
        );
        assert(digits.take(point) + Seq::<char>::empty() + digits.skip(point) =~= digits);
        lemma_pow_positive(10, (count - point) as nat);
        assert(text[0] == digits[0]);
        assert(is_digit(digits[0]));
    }
    if point <= 0 {
        assert(text[0] == '0');
    } else if point >= count {
        if count > 0 {
            assert(text[0] == digits[0]);
            assert(is_digit(digits[0]));
        } else {
            assert(text[0] == '0');
        }
    }
}

/// Read as a plain decimal, the text that `shift_point` makes of a
/// mantissa of digits and decimal points writes the number of the
/// mantissa times ten to the exponent.
pub proof fn lemma_shift_point_value(mantissa: Seq<char>, exponent: int)
    requires
        ({
            let negative = mantissa.len() > 0 && mantissa[0] == '-';
            all_digits(mantissa_digits(if negative { mantissa.drop_first() } else { mantissa }))
        }),
    ensures
        plain_value(shift_point(mantissa, exponent)).same(
            scientific_value(mantissa, exponent),
        ),
{
    let negative = mantissa.len() > 0 && mantissa[0] == '-';
    let body = if negative { mantissa.drop_first() } else { mantissa };
    let digits = mantissa_digits(body);
    let point = first_index(body, '.') + exponent;
    let placed = place_point(digits, point);
    lemma_placed_value(digits, point);
    let (u, v) = (unsigned_value(placed), shifted(decimal_value(digits), point - digits.len()));
    if negative {
        let text = seq!['-'] + placed;
        assert(text.drop_first() =~= placed);
        assert((-u.num) * v.den == (-v.num) * u.den) by (nonlinear_arith)
            requires
                u.num * v.den == v.num * u.den,
        ;
    }
}

/// Where `normalize` removes an exponent from a mantissa of digits and
/// decimal points, the text it returns, read as a plain decimal, writes
/// the number of the mantissa times ten to the exponent.
pub proof fn lemma_normalized_value(s: Seq<char>)
    requires
        first_index(s, 'e') < s.len(),
        exponent_of(s.skip(first_index(s, 'e') + 1)) is Some,
        ({
            let mantissa = s.take(first_index(s, 'e'));
            let negative = mantissa.len() > 0 && mantissa[0] == '-';
            all_digits(mantissa_digits(if negative { mantissa.drop_first() } else { mantissa }))
        }),
    ensures
        normalized(s) matches Ok(text) && plain_value(text).same(
            scientific_value(
                s.take(first_index(s, 'e')),
                exponent_of(s.skip(first_index(s, 'e') + 1))->0,
            ),
        ),
{
    let marker = first_index(s, 'e');
    lemma_shift_point_value(s.take(marker), exponent_of(s.skip(marker + 1))->0);
}

} // verus!
