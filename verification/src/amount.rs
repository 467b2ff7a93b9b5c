use crate::decimal::{
    all_digits, digit_char, digits_of, digits_value, ends_whole_part, is_digit,
    lemma_digits_value_bound, lemma_long_fraction, lemma_short_fraction, lemma_whole_len_is,
    parsed, rounded_fraction, written, DECIMAL_POINT, DIGIT_FIVE, DIGIT_NINE, DIGIT_ZERO,
    MINUS_SIGN, PLUS_SIGN,
};
use vstd::arithmetic::power::{lemma_pow0, pow};
use vstd::prelude::*;

verus! {

/// A signed sum of money as it stands in one record of the log, counted in
/// ten-thousandths of a unit.
#[derive(Clone, Copy, Debug, PartialEq, Eq, Structural)]
pub struct Amount {
    pub units: i64,
}

impl View for Amount {
    type V = int;

    /// The number of ten-thousandths.
    open spec fn view(&self) -> int {
        self.units as int
    }
}

/// The number of ten-thousandths of an amount, where there is one.
pub open spec fn units_of(amount: Option<Amount>) -> Option<int> {
    match amount {
        Some(amount) => Some(amount@),
        None => None,
    }
}

/// The largest whole part that an amount can hold.
const WHOLE_MAX: u64 = 922_337_203_685_477;

/// Whether `byte` is a decimal digit.
fn is_digit_byte(byte: u8) -> (digit: bool)
    ensures
        digit == is_digit(byte),
{
    DIGIT_ZERO <= byte && byte <= DIGIT_NINE
}

/// Reads the digits that `text` goes on with from `start`. Hands back
/// where they end, and the number they spell unless it is more than the
/// whole part of any amount.
fn read_whole(text: &[u8], start: usize) -> (read: (usize, Option<u64>))
    requires
        start <= text.len(),
    ensures
        start <= read.0 <= text.len(),
        ends_whole_part(text@.skip(start as int), read.0 - start),
        match read.1 {
            Some(whole) => whole == digits_value(text@.skip(start as int).take(read.0 - start))
                && whole <= WHOLE_MAX,
            None => digits_value(text@.skip(start as int).take(read.0 - start)) > WHOLE_MAX,
        },
{
    let n = text.len();
    let ghost body = text@.skip(start as int);
    let mut i = start;
    let mut whole: u64 = 0;
    let mut too_big = false;
    assert(body.take(0) =~= Seq::<u8>::empty());
    while i < n && is_digit_byte(text[i])
        invariant
            start <= i <= n,
            n == text.len(),
            body == text@.skip(start as int),
            all_digits(body.take(i - start)),
            !too_big ==> whole == digits_value(body.take(i - start)) && whole <= WHOLE_MAX,
            too_big ==> digits_value(body.take(i - start)) > WHOLE_MAX,
        decreases n - i,
    {
        let digit: u64 = (text[i] - DIGIT_ZERO) as u64;
        proof {
            let seen = body.take(i - start);
            let next = body.take(i + 1 - start);
            assert(next.drop_last() =~= seen);
            assert(next.last() == text[i as int]);
            assert forall|k: int| 0 <= k < next.len() implies is_digit(#[trigger] next[k]) by {
                if k < seen.len() {
                    assert(next[k] == seen[k]);
                }
            }
        }
        if !too_big {
            whole = whole * 10 + digit;
            if whole > WHOLE_MAX {
                too_big = true;
            }
        }
        i += 1;
    }
    if too_big {
        (i, None)
    } else {
        (i, Some(whole))
    }
}

/// Reads the digits after the point, which are `text` from `first` to its
/// end, as ten-thousandths. There is no result where something else than a
/// digit stands there.
fn read_fraction(text: &[u8], first: usize) -> (read: Option<u64>)
    requires
        first <= text.len(),
    ensures
        match read {
            Some(shown) => all_digits(text@.skip(first as int)) && shown == rounded_fraction(
                text@.skip(first as int),
            ) && shown <= 10_000,
            None => !all_digits(text@.skip(first as int)),
        },
{
    let n = text.len();
    let ghost fraction = text@.skip(first as int);
    let mut j = first;
    let mut shown: u64 = 0;
    let mut round_up = false;
    assert(fraction.take(0) =~= Seq::<u8>::empty());
    while j < n
        invariant
            first <= j <= n,
            n == text.len(),
            fraction == text@.skip(first as int),
            all_digits(fraction.take(j - first)),
            j - first <= 4 ==> shown == digits_value(fraction.take(j - first)) && !round_up,
            j - first > 4 ==> shown == digits_value(fraction.take(4)) && round_up == (fraction[4]
                >= DIGIT_FIVE),
            shown <= 9999,
        decreases n - j,
    {
        if !is_digit_byte(text[j]) {
            assert(fraction[j - first] == text[j as int]);
            return None;
        }
        let digit: u64 = (text[j] - DIGIT_ZERO) as u64;
        proof {
            let seen = fraction.take(j - first);
            let next = fraction.take(j + 1 - first);
            assert(next.drop_last() =~= seen);
            assert(next.last() == text[j as int]);
            assert forall|k: int| 0 <= k < next.len() implies is_digit(#[trigger] next[k]) by {
                if k < seen.len() {
                    assert(next[k] == seen[k]);
                }
            }
            if j - first < 4 {
                lemma_digits_value_bound(next);
                assert(pow(10, next.len()) <= 10_000) by {
                    reveal_with_fuel(pow, 5);
                }
            }
            if j - first == 4 {
                assert(seen =~= fraction.take(4));
            }
        }
        if j - first < 4 {
            shown = shown * 10 + digit;
        } else if j - first == 4 {
            round_up = digit >= 5;
        }
        j += 1;
    }
    let count = n - first;
    proof {
        assert(fraction.take(count as int) =~= fraction);
        lemma_pow0(10);
        if count <= 4 {
            lemma_short_fraction(fraction);
            lemma_digits_value_bound(fraction);
            reveal_with_fuel(pow, 5);
        } else {
            lemma_long_fraction(fraction);
        }
    }
    let filled: u64 = if count == 1 {
        shown * 1000
    } else if count == 2 {
        shown * 100
    } else if count == 3 {
        shown * 10
    } else {
        shown
    };
    if round_up {
        Some(filled + 1)
    } else {
        Some(filled)
    }
}

impl Amount {
    /// The amount that `text` spells, if it spells one.
    pub open spec fn spelt(text: Seq<u8>) -> Option<Amount> {
        match parsed(text) {
            Some(units) => Some(Amount { units: units as i64 }),
            None => None,
        }
    }

    /// Reads an amount from decimal text, rounding it to four decimal
    /// places, a half away from zero. There is no amount where the text is
    /// no decimal number or its value is too large.
    pub fn parse(text: &[u8]) -> (amount: Option<Amount>)
        ensures
            amount == Amount::spelt(text@),
            units_of(amount) == parsed(text@),
    {
        let n = text.len();
        let negative = n > 0 && text[0] == MINUS_SIGN;
        let start: usize = if n > 0 && (text[0] == MINUS_SIGN || text[0] == PLUS_SIGN) {
            1
        } else {
            0
        };
        let ghost body = text@.skip(start as int);
        assert(start == 0 ==> body =~= text@);
        let (stop, whole) = read_whole(text, start);
        let ghost end = stop - start;
        proof {
            lemma_whole_len_is(body, end);
        }
        let first: usize = if stop < n {
            if text[stop] != DECIMAL_POINT {
                return None;
            }
            stop + 1
        } else {
            stop
        };
        let ghost fraction = text@.skip(first as int);
        assert(fraction =~= if end < body.len() {
            body.skip(end + 1)
        } else {
            Seq::empty()
        });
        let shown = match read_fraction(text, first) {
            Some(shown) => shown,
            None => {
                return None;
            },
        };
        if stop - start + (n - first) == 0 {
            return None;
        }
        let whole = match whole {
            Some(whole) => whole,
            None => {
                return None;
            },
        };
        let magnitude: u64 = whole * 10_000 + shown;
        let units: i128 = if negative {
            -(magnitude as i128)
        } else {
            magnitude as i128
        };
        if units < i64::MIN as i128 || units > i64::MAX as i128 {
            None
        } else {
            Some(Amount { units: units as i64 })
        }
    }
}

/// Writes `units` ten-thousandths as a decimal number.
pub fn decimal_text(units: i128) -> (text: Vec<u8>)
    ensures
        text@ == written(units as int),
{
    let magnitude: u128 = if units < 0 {
        if units == i128::MIN {
            0x8000_0000_0000_0000_0000_0000_0000_0000
        } else {
            (-units) as u128
        }
    } else {
        units as u128
    };
    let whole: u128 = magnitude / 10_000;
    let part: u16 = (magnitude % 10_000) as u16;

    let mut digits: Vec<u8> = Vec::new();
    digits.push(DIGIT_ZERO + (whole % 10) as u8);
    let mut rest: u128 = whole / 10;
    assert(digits@ =~= seq![digit_char(whole as int % 10)]);
    while rest > 0
        invariant
            digits_of(whole as nat) == if rest > 0 {
                digits_of(rest as nat) + digits@
            } else {
                digits@
            },
        decreases rest,
    {
        let ghost before = digits@;
        digits.insert(0, DIGIT_ZERO + (rest % 10) as u8);
        proof {
            let digit = digit_char(rest as int % 10);
            assert(digits@ =~= seq![digit] + before);
            if rest >= 10 {
                assert(digits_of(rest as nat) + before =~= digits_of((rest / 10) as nat) + digits@);
            } else {
                assert(digits_of(rest as nat) + before =~= digits@);
            }
        }
        rest = rest / 10;
    }
    let mut text: Vec<u8> = Vec::new();
    if units < 0 {
        text.push(MINUS_SIGN);
    }
    text.append(&mut digits);
    text.push(DECIMAL_POINT);
    text.push(DIGIT_ZERO + (part / 1000) as u8);
    if part % 1000 != 0 {
        text.push(DIGIT_ZERO + (part / 100 % 10) as u8);
        if part % 100 != 0 {
            text.push(DIGIT_ZERO + (part / 10 % 10) as u8);
            if part % 10 != 0 {
                text.push(DIGIT_ZERO + (part % 10) as u8);
            }
        }
    }
    assert(text@ =~= written(units as int));
    text
}

} // verus!
