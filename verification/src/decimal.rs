//! How amounts are spelt as decimal numbers: what a text is read as, and
//! what is written for a number of ten-thousandths.

use vstd::arithmetic::div_mod::{
    lemma_fundamental_div_mod, lemma_fundamental_div_mod_converse, lemma_mod_bound,
};
use vstd::arithmetic::power::{lemma_pow0, lemma_pow1, lemma_pow_adds, lemma_pow_positive, pow};
use vstd::prelude::*;

verus! {

/// The character `0`.
pub const DIGIT_ZERO: u8 = 0x30;

/// The character `5`.
pub const DIGIT_FIVE: u8 = 0x35;

/// The character `9`.
pub const DIGIT_NINE: u8 = 0x39;

/// The character `+`.
pub const PLUS_SIGN: u8 = 0x2b;

/// The character `-`.
pub const MINUS_SIGN: u8 = 0x2d;

/// The character `.`.
pub const DECIMAL_POINT: u8 = 0x2e;

/// Whether `byte` is one of the characters `0` to `9`.
pub open spec fn is_digit(byte: u8) -> bool {
    DIGIT_ZERO <= byte <= DIGIT_NINE
}

/// Whether `text` holds decimal digits and nothing else.
pub open spec fn all_digits(text: Seq<u8>) -> bool {
    forall|i: int| 0 <= i < text.len() ==> is_digit(#[trigger] text[i])
}

/// The number that the decimal digits `digits` spell. No digits spell zero.
pub open spec fn digits_value(digits: Seq<u8>) -> nat
    decreases digits.len(),
{
    if digits.len() == 0 {
        0
    } else {
        digits_value(digits.drop_last()) * 10 + (digits.last() - DIGIT_ZERO) as nat
    }
}

/// Whether the digits that `body` starts with end at `end`: before `end`
/// there are only digits, and at `end` the text is over or goes on with
/// something else.
pub open spec fn ends_whole_part(body: Seq<u8>, end: int) -> bool {
    &&& 0 <= end <= body.len()
    &&& all_digits(body.take(end))
    &&& end < body.len() ==> !is_digit(body[end])
}

/// The number of digits that `body` starts with.
pub open spec fn whole_len(body: Seq<u8>) -> int {
    choose|end: int| ends_whole_part(body, end)
}

/// The digits `fraction` after a decimal point, as a number of
/// ten-thousandths: `0.fraction` times ten thousand, rounded to the nearest
/// whole number, a half rounded up.
pub open spec fn rounded_fraction(fraction: Seq<u8>) -> int {
    let scale = pow(10, fraction.len());
    (2 * digits_value(fraction) * 10_000 + scale) / (2 * scale)
}

/// The amount that `text` spells, in ten-thousandths.
///
/// A decimal number is an optional sign `+` or `-`, then digits, then
/// optionally a point and more digits. There is at least one digit, before
/// or after the point; nothing else may stand in the text. Its value is
/// rounded to four decimal places, a half away from zero. Text that is no
/// decimal number, or whose rounded value is more than an amount can hold,
/// spells nothing.
pub open spec fn parsed(text: Seq<u8>) -> Option<int> {
    let signed = text.len() > 0 && (text[0] == MINUS_SIGN || text[0] == PLUS_SIGN);
    let negative = text.len() > 0 && text[0] == MINUS_SIGN;
    let body = if signed {
        text.skip(1)
    } else {
        text
    };
    let end = whole_len(body);
    let whole = body.take(end);
    let fraction = if end < body.len() {
        body.skip(end + 1)
    } else {
        Seq::empty()
    };
    let magnitude = digits_value(whole) * 10_000 + rounded_fraction(fraction);
    let units = if negative {
        -magnitude
    } else {
        magnitude
    };
    if (end == body.len() || body[end] == DECIMAL_POINT) && all_digits(fraction) && whole.len()
        + fraction.len() > 0 && i64::MIN <= units <= i64::MAX {
        Some(units)
    } else {
        None
    }
}

/// The character of the digit `digit`.
pub open spec fn digit_char(digit: int) -> u8 {
    (DIGIT_ZERO + digit) as u8
}

/// The decimal digits of `number`, without leading zeros; zero is `0`.
pub open spec fn digits_of(number: nat) -> Seq<u8>
    decreases number,
{
    if number < 10 {
        seq![digit_char(number as int)]
    } else {
        digits_of(number / 10).push(digit_char(number as int % 10))
    }
}

/// The digits after the point for `part` ten-thousandths, `part` below ten
/// thousand: four digits, without the zeros at their end, but one digit at
/// least.
pub open spec fn fraction_digits(part: int) -> Seq<u8> {
    let full = seq![
        digit_char(part / 1000),
        digit_char(part / 100 % 10),
        digit_char(part / 10 % 10),
        digit_char(part % 10),
    ];
    if part % 1000 == 0 {
        full.take(1)
    } else if part % 100 == 0 {
        full.take(2)
    } else if part % 10 == 0 {
        full.take(3)
    } else {
        full
    }
}

/// How `units` ten-thousandths are written: a `-` where they are below zero,
/// the whole part, a point, and up to four digits after it.
pub open spec fn written(units: int) -> Seq<u8> {
    let magnitude = if units < 0 {
        -units
    } else {
        units
    };
    let sign = if units < 0 {
        seq![MINUS_SIGN]
    } else {
        Seq::empty()
    };
    sign + digits_of((magnitude / 10_000) as nat) + seq![DECIMAL_POINT] + fraction_digits(
        magnitude % 10_000,
    )
}

/// The digits that a text starts with end in one place only.
pub proof fn lemma_whole_len_is(body: Seq<u8>, end: int)
    requires
        ends_whole_part(body, end),
    ensures
        whole_len(body) == end,
{
    let chosen = whole_len(body);
    assert(ends_whole_part(body, chosen));
    if chosen < end {
        assert(body.take(end)[chosen] == body[chosen]);
    } else if end < chosen {
        assert(body.take(chosen)[end] == body[end]);
    }
}

/// Digits spell a number below the power of ten of their count.
pub proof fn lemma_digits_value_bound(digits: Seq<u8>)
    requires
        all_digits(digits),
    ensures
        digits_value(digits) < pow(10, digits.len()),
    decreases digits.len(),
{
    if digits.len() == 0 {
        lemma_pow0(10);
    } else {
        let front = digits.drop_last();
        assert(all_digits(front)) by {
            assert forall|i: int| 0 <= i < front.len() implies is_digit(#[trigger] front[i]) by {
                assert(front[i] == digits[i]);
            }
        }
        lemma_digits_value_bound(front);
        assert(is_digit(digits[digits.len() - 1]));
        lemma_pow_adds(10, front.len(), 1);
        lemma_pow1(10);
        assert(digits.len() == front.len() + 1);
    }
}

/// Digits spell the number of their first `cut` digits, shifted left by the
/// count of the others, plus the number of the others.
pub proof fn lemma_digits_value_split(digits: Seq<u8>, cut: int)
    requires
        0 <= cut <= digits.len(),
    ensures
        digits_value(digits) == digits_value(digits.take(cut)) * pow(
            10,
            (digits.len() - cut) as nat,
        ) + digits_value(digits.skip(cut)),
    decreases digits.len(),
{
    if cut == digits.len() {
        assert(digits.take(cut) =~= digits);
        assert(digits.skip(cut) =~= Seq::<u8>::empty());
        lemma_pow0(10);
    } else {
        let front = digits.drop_last();
        lemma_digits_value_split(front, cut);
        assert(front.take(cut) =~= digits.take(cut));
        assert(digits.skip(cut).drop_last() =~= front.skip(cut));
        assert(digits.skip(cut).last() == digits.last());
        let rest = (front.len() - cut) as nat;
        lemma_pow_adds(10, rest, 1);
        lemma_pow1(10);
        assert((digits.len() - cut) as nat == rest + 1);
        let head = digits_value(digits.take(cut)) as int;
        let shift = pow(10, rest);
        assert(head * (shift * 10) == head * shift * 10) by (nonlinear_arith);
    }
}

/// Up to four digits after the point are ten-thousandths once they are
/// filled up with zeros: nothing is rounded.
pub proof fn lemma_short_fraction(fraction: Seq<u8>)
    requires
        fraction.len() <= 4,
    ensures
        rounded_fraction(fraction) == digits_value(fraction) * pow(
            10,
            (4 - fraction.len()) as nat,
        ),
{
    let count = fraction.len();
    let scale = pow(10, count);
    let fill = pow(10, (4 - count) as nat);
    let value = digits_value(fraction) as int;
    lemma_pow_adds(10, count, (4 - count) as nat);
    lemma_pow_positive(10, count);
    assert(pow(10, 4) == 10_000) by {
        reveal_with_fuel(pow, 5);
    }
    assert(scale * fill == 10_000);
    assert(2 * value * 10_000 + scale == (value * fill) * (2 * scale) + scale) by (nonlinear_arith)
        requires
            scale * fill == 10_000,
    ;
    lemma_fundamental_div_mod_converse(
        2 * value * 10_000 + scale,
        2 * scale,
        value * fill,
        scale,
    );
}

/// Five or more digits after the point are the first four of them as
/// ten-thousandths, and one more where the fifth digit is five or above.
pub proof fn lemma_long_fraction(fraction: Seq<u8>)
    requires
        fraction.len() >= 5,
        all_digits(fraction),
    ensures
        rounded_fraction(fraction) == digits_value(fraction.take(4)) + (if fraction[4]
            >= DIGIT_FIVE {
            1int
        } else {
            0int
        }),
{
    let count = fraction.len();
    let scale = pow(10, count);
    let tail = pow(10, (count - 5) as nat);
    let value = digits_value(fraction) as int;
    let first = digits_value(fraction.take(4)) as int;
    let fifth = (fraction[4] - DIGIT_ZERO) as int;
    let rest = digits_value(fraction.skip(5)) as int;
    assert(is_digit(fraction[4]));
    lemma_digits_value_split(fraction, 5);
    assert(fraction.take(5).drop_last() =~= fraction.take(4));
    assert(fraction.take(5).last() == fraction[4]);
    assert(digits_value(fraction.take(5)) == first * 10 + fifth);
    assert(all_digits(fraction.skip(5))) by {
        assert forall|i: int| 0 <= i < fraction.skip(5).len() implies is_digit(
            #[trigger] fraction.skip(5)[i],
        ) by {
            assert(fraction.skip(5)[i] == fraction[i + 5]);
        }
    }
    lemma_digits_value_bound(fraction.skip(5));
    lemma_pow_adds(10, 5, (count - 5) as nat);
    lemma_pow_positive(10, (count - 5) as nat);
    assert(pow(10, 5) == 100_000) by {
        reveal_with_fuel(pow, 6);
    }
    assert(scale == 100_000 * tail);
    assert(value == (first * 10 + fifth) * tail + rest);
    let up = if fifth >= 5 {
        1int
    } else {
        0int
    };
    let left = 20_000 * fifth * tail + 100_000 * tail + 20_000 * rest - up * (200_000 * tail);
    assert(2 * value * 10_000 + scale == (first + up) * (2 * scale) + left) by (nonlinear_arith)
        requires
            scale == 100_000 * tail,
            value == (first * 10 + fifth) * tail + rest,
            left == 20_000 * fifth * tail + 100_000 * tail + 20_000 * rest - up * (200_000 * tail),
    ;
    assert(0 <= left < 2 * scale) by (nonlinear_arith)
        requires
            scale == 100_000 * tail,
            0 <= rest < tail,
            0 <= fifth <= 9,
            up == if fifth >= 5 {
                1int
            } else {
                0int
            },
            left == 20_000 * fifth * tail + 100_000 * tail + 20_000 * rest - up * (200_000 * tail),
    ;
    lemma_fundamental_div_mod_converse(2 * value * 10_000 + scale, 2 * scale, first + up, left);
}

/// The digits after the point are rounded to the nearest number of
/// ten-thousandths: what they are rounded to is at most half a
/// ten-thousandth away from them, and the larger of two that are equally
/// near.
pub proof fn lemma_rounded_fraction_is_nearest(fraction: Seq<u8>)
    ensures
        ({
            let scale = pow(10, fraction.len());
            let exact = digits_value(fraction) * 10_000;
            let rounded = rounded_fraction(fraction) * scale;
            2 * rounded - scale <= 2 * exact < 2 * rounded + scale
        }),
{
    let scale = pow(10, fraction.len());
    let exact = digits_value(fraction) * 10_000;
    lemma_pow_positive(10, fraction.len());
    lemma_fundamental_div_mod(2 * exact + scale, 2 * scale);
    lemma_mod_bound(2 * exact + scale, 2 * scale);
    let quotient = (2 * exact + scale) / (2 * scale);
    assert((2 * scale) * quotient == 2 * (quotient * scale)) by (nonlinear_arith);
}

/// The digits of a number are digits, one at least.
pub proof fn lemma_digits_of_are_digits(number: nat)
    ensures
        all_digits(digits_of(number)),
        digits_of(number).len() >= 1,
    decreases number,
{
    if number >= 10 {
        lemma_digits_of_are_digits(number / 10);
        let front = digits_of(number / 10);
        let all = digits_of(number);
        assert forall|i: int| 0 <= i < all.len() implies is_digit(#[trigger] all[i]) by {
            if i < front.len() {
                assert(all[i] == front[i]);
            }
        }
    }
}

/// The digits of a number spell that number.
pub proof fn lemma_digits_of_spell(number: nat)
    ensures
        digits_value(digits_of(number)) == number,
    decreases number,
{
    if number < 10 {
        let all = digits_of(number);
        assert(all.drop_last() =~= Seq::<u8>::empty());
        assert(digits_value(all.drop_last()) == 0);
    } else {
        lemma_digits_of_spell(number / 10);
        let all = digits_of(number);
        assert(all.drop_last() =~= digits_of(number / 10));
    }
}

/// The digits written after the point are digits, between one and four, and
/// are read back as the ten-thousandths they were written for.
pub proof fn lemma_fraction_digits_spell(part: int)
    requires
        0 <= part < 10_000,
    ensures
        all_digits(fraction_digits(part)),
        1 <= fraction_digits(part).len() <= 4,
        rounded_fraction(fraction_digits(part)) == part,
{
    let full = seq![
        digit_char(part / 1000),
        digit_char(part / 100 % 10),
        digit_char(part / 10 % 10),
        digit_char(part % 10),
    ];
    let shown = fraction_digits(part);
    assert(full.take(1).drop_last() =~= Seq::<u8>::empty());
    assert(full.take(2).drop_last() =~= full.take(1));
    assert(full.take(3).drop_last() =~= full.take(2));
    assert(full.drop_last() =~= full.take(3));
    assert(digits_value(Seq::<u8>::empty()) == 0);
    assert(digits_value(full.take(1)) == part / 1000);
    assert(digits_value(full.take(2)) == part / 100);
    assert(digits_value(full.take(3)) == part / 10);
    assert(digits_value(full) == part);
    lemma_short_fraction(shown);
    assert(pow(10, 0) == 1 && pow(10, 1) == 10 && pow(10, 2) == 100 && pow(10, 3) == 1000) by {
        reveal_with_fuel(pow, 5);
    }
    if part % 1000 == 0 {
        assert(shown =~= full.take(1));
    } else if part % 100 == 0 {
        assert(shown =~= full.take(2));
    } else if part % 10 == 0 {
        assert(shown =~= full.take(3));
    } else {
        assert(shown =~= full);
    }
}

/// What a decimal number spells, by its parts: after a sign or none come
/// the digits `whole`, then, where `point` says so, a point and the digits
/// `fraction`. It spells the number of the digits before the point, in
/// ten-thousandths, plus the rounded digits after it, below zero under a
/// `-`; and nothing where that is more than an amount can hold.
pub proof fn lemma_parsed_of_parts(sign: Seq<u8>, whole: Seq<u8>, point: bool, fraction: Seq<u8>)
    requires
        sign.len() == 0 || sign == seq![PLUS_SIGN] || sign == seq![MINUS_SIGN],
        all_digits(whole),
        all_digits(fraction),
        whole.len() + fraction.len() >= 1,
        !point ==> fraction.len() == 0,
    ensures
        ({
            let mark = if point {
                seq![DECIMAL_POINT]
            } else {
                Seq::empty()
            };
            let magnitude = digits_value(whole) * 10_000 + rounded_fraction(fraction);
            let units = if sign == seq![MINUS_SIGN] {
                -magnitude
            } else {
                magnitude
            };
            parsed(sign + whole + mark + fraction) == if i64::MIN <= units <= i64::MAX {
                Some(units)
            } else {
                None
            }
        }),
{
    let mark = if point {
        seq![DECIMAL_POINT]
    } else {
        Seq::<u8>::empty()
    };
    let body = whole + mark + fraction;
    let text = sign + whole + mark + fraction;
    let end = whole.len() as int;
    assert(text =~= sign + body);
    assert(text.len() > 0);
    let signed = text[0] == MINUS_SIGN || text[0] == PLUS_SIGN;
    assert(signed == (sign.len() == 1)) by {
        if sign.len() == 1 {
            assert(text[0] == sign[0]);
        } else if whole.len() > 0 {
            assert(text[0] == whole[0]);
            assert(is_digit(whole[0]));
        } else {
            assert(text[0] == DECIMAL_POINT);
        }
    }
    assert((text[0] == MINUS_SIGN) == (sign == seq![MINUS_SIGN])) by {
        if sign.len() == 1 {
            assert(text[0] == sign[0]);
            assert(sign =~= seq![sign[0]]);
        }
    }
    let rest = if signed {
        text.skip(1)
    } else {
        text
    };
    assert(rest =~= body);
    assert(body.take(end) =~= whole);
    assert(end < body.len() ==> body[end] == DECIMAL_POINT) by {
        if !point {
            assert(body =~= whole);
        }
    }
    assert(ends_whole_part(body, end));
    lemma_whole_len_is(body, end);
    if end < body.len() {
        assert(body.skip(end + 1) =~= fraction);
    } else {
        assert(fraction =~= Seq::<u8>::empty());
    }
}

/// The digits that a text starts with end somewhere: at `from` or after
/// it, where there are only digits before `from`.
pub proof fn lemma_whole_part_ends(body: Seq<u8>, from: int) -> (end: int)
    requires
        0 <= from <= body.len(),
        all_digits(body.take(from)),
    ensures
        ends_whole_part(body, end),
    decreases body.len() - from,
{
    if from < body.len() && is_digit(body[from]) {
        assert forall|i: int| 0 <= i < from + 1 implies is_digit(#[trigger] body.take(from + 1)[i]) by {
            if i < from {
                assert(body.take(from)[i] == body[i]);
            }
        }
        lemma_whole_part_ends(body, from + 1)
    } else {
        from
    }
}

/// Text that spells an amount is a decimal number: it is made of a sign or
/// none, digits, and a point with more digits or neither, with one digit at
/// least.
pub proof fn lemma_parsed_has_parts(text: Seq<u8>) -> (parts: (Seq<u8>, Seq<u8>, bool, Seq<u8>))
    requires
        parsed(text) is Some,
    ensures
        ({
            let (sign, whole, point, fraction) = parts;
            let mark = if point {
                seq![DECIMAL_POINT]
            } else {
                Seq::empty()
            };
            &&& sign.len() == 0 || sign == seq![PLUS_SIGN] || sign == seq![MINUS_SIGN]
            &&& all_digits(whole)
            &&& all_digits(fraction)
            &&& whole.len() + fraction.len() >= 1
            &&& !point ==> fraction.len() == 0
            &&& text == sign + whole + mark + fraction
        }),
{
    let signed = text.len() > 0 && (text[0] == MINUS_SIGN || text[0] == PLUS_SIGN);
    let sign = if signed {
        text.take(1)
    } else {
        Seq::<u8>::empty()
    };
    let body = if signed {
        text.skip(1)
    } else {
        text
    };
    assert(body.take(0) =~= Seq::<u8>::empty());
    let found = lemma_whole_part_ends(body, 0);
    lemma_whole_len_is(body, found);
    let end = whole_len(body);
    let whole = body.take(end);
    let point = end < body.len();
    let fraction = if point {
        body.skip(end + 1)
    } else {
        Seq::<u8>::empty()
    };
    let mark = if point {
        seq![DECIMAL_POINT]
    } else {
        Seq::<u8>::empty()
    };
    if signed {
        assert(sign =~= seq![text[0]]);
    }
    assert(text =~= sign + body);
    assert(body =~= whole + mark + fraction);
    assert(text =~= sign + whole + mark + fraction);
    (sign, whole, point, fraction)
}

/// What is written for an amount is read back as that amount.
pub proof fn lemma_written_is_read_back(units: int)
    requires
        i64::MIN <= units <= i64::MAX,
    ensures
        parsed(written(units)) == Some(units),
{
    let magnitude = if units < 0 {
        -units
    } else {
        units
    };
    let sign = if units < 0 {
        seq![MINUS_SIGN]
    } else {
        Seq::<u8>::empty()
    };
    let whole = digits_of((magnitude / 10_000) as nat);
    let fraction = fraction_digits(magnitude % 10_000);
    lemma_digits_of_are_digits((magnitude / 10_000) as nat);
    lemma_digits_of_spell((magnitude / 10_000) as nat);
    lemma_fraction_digits_spell(magnitude % 10_000);
    lemma_parsed_of_parts(sign, whole, true, fraction);
    assert(sign == seq![MINUS_SIGN] <==> units < 0) by {
        if units >= 0 {
            assert(sign.len() == 0);
        }
    }
}

} // verus!
