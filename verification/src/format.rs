//! Writing magnitudes as text.

use vstd::prelude::*;
use vstd::string::StringExecFns;
use crate::decimal::fits_i64;
use crate::parse::{
    all_digits, digit_value, digits_value, exponent_value, is_digit, is_space, leading_digits,
    leading_spaces, lemma_all_digits_lead, mantissa, parsed, places, pow10, scaled, signed_value,
    tail, trailing_spaces, trimmed, unsigned_value,
};

verus! {

/// The character that writes a number below ten.
pub open spec fn digit_char(digit: nat) -> char
    recommends
        digit < 10,
{
    if digit == 0 {
        '0'
    } else if digit == 1 {
        '1'
    } else if digit == 2 {
        '2'
    } else if digit == 3 {
        '3'
    } else if digit == 4 {
        '4'
    } else if digit == 5 {
        '5'
    } else if digit == 6 {
        '6'
    } else if digit == 7 {
        '7'
    } else if digit == 8 {
        '8'
    } else {
        '9'
    }
}

/// A natural number in decimal notation, without leading zeros.
pub open spec fn number_text(number: nat) -> Seq<char>
    decreases number,
{
    if number < 10 {
        seq![digit_char(number)]
    } else {
        number_text(number / 10).push(digit_char(number % 10))
    }
}

/// How far a magnitude in billionths is from zero.
pub open spec fn magnitude_of(value: int) -> nat {
    if value < 0 {
        (-value) as nat
    } else {
        value as nat
    }
}

/// The hundredths nearest to a magnitude in billionths, counted from zero;
/// halfway between two, the even one.
pub open spec fn nearest_hundredths(value: int) -> nat {
    let below = magnitude_of(value) / 10_000_000;
    let rest = magnitude_of(value) % 10_000_000;
    if rest > 5_000_000 || (rest == 5_000_000 && below % 2 == 1) {
        below + 1
    } else {
        below
    }
}

/// A count of hundredths written as a number: the whole part, a point and
/// two digits.
pub open spec fn hundredths_text(hundredths: nat) -> Seq<char> {
    number_text(hundredths / 100) + seq![
        '.',
        digit_char(hundredths / 10 % 10),
        digit_char(hundredths % 10),
    ]
}

/// A magnitude written with two decimal places: a minus sign where it is
/// below zero, then the nearest hundredths.
pub open spec fn two_places_text(value: int) -> Seq<char> {
    let sign = if value < 0 {
        seq!['-']
    } else {
        Seq::<char>::empty()
    };
    sign + hundredths_text(nearest_hundredths(value))
}

/// The text of one digit.
fn digit_text(digit: u64) -> (text: &'static str)
    requires
        digit < 10,
    ensures
        text@ == seq![digit_char(digit as nat)],
{
    proof {
        reveal_strlit("0");
        reveal_strlit("1");
        reveal_strlit("2");
        reveal_strlit("3");
        reveal_strlit("4");
        reveal_strlit("5");
        reveal_strlit("6");
        reveal_strlit("7");
        reveal_strlit("8");
        reveal_strlit("9");
    }
    let text: &'static str = if digit == 0 {
        "0"
    } else if digit == 1 {
        "1"
    } else if digit == 2 {
        "2"
    } else if digit == 3 {
        "3"
    } else if digit == 4 {
        "4"
    } else if digit == 5 {
        "5"
    } else if digit == 6 {
        "6"
    } else if digit == 7 {
        "7"
    } else if digit == 8 {
        "8"
    } else {
        "9"
    };
    text
}

/// Writes a natural number behind what `text` holds.
fn append_number(text: &mut String, number: u64)
    ensures
        final(text)@ == old(text)@ + number_text(number as nat),
    decreases number,
{
    if number >= 10 {
        append_number(text, number / 10);
    }
    text.append(digit_text(number % 10));
}

/// Writes a magnitude with two decimal places, rounded to the nearest
/// hundredth; halfway between two, to the even one.
pub fn format_two_places(value: i64) -> (text: String)
    ensures
        text@ == two_places_text(value as int),
{
    let negative: bool = value < 0;
    let magnitude: u64 = if negative {
        (-(value as i128)) as u64
    } else {
        value as u64
    };
    let below: u64 = magnitude / 10_000_000;
    let rest: u64 = magnitude % 10_000_000;
    let hundredths: u64 = if rest > 5_000_000 || (rest == 5_000_000 && below % 2 == 1) {
        below + 1
    } else {
        below
    };
    let mut text: String = String::new();
    proof {
        reveal_strlit("-");
        reveal_strlit(".");
    }
    if negative {
        text.append("-");
    }
    append_number(&mut text, hundredths / 100);
    text.append(".");
    text.append(digit_text(hundredths / 10 % 10));
    text.append(digit_text(hundredths % 10));
    text
}

/// A magnitude rounded to the nearest hundredth, in billionths; halfway
/// between two, to the even one.
pub open spec fn rounded_to_hundredths(value: int) -> int {
    if value < 0 {
        -(nearest_hundredths(value) as int) * 10_000_000
    } else {
        nearest_hundredths(value) as int * 10_000_000
    }
}

/// A number is written in digits, at least one, and they write that number.
pub proof fn lemma_number_text_reads_back(number: nat)
    ensures
        number_text(number).len() > 0,
        all_digits(number_text(number)),
        digits_value(number_text(number)) == number,
    decreases number,
{
    let text = number_text(number);
    if number < 10 {
        assert(text.drop_last() =~= Seq::<char>::empty());
        assert(digits_value(text.drop_last()) == 0);
    } else {
        lemma_number_text_reads_back(number / 10);
        assert(text.drop_last() =~= number_text(number / 10));
        assert forall|i: int| 0 <= i < text.len() implies is_digit(#[trigger] text[i]) by {
            if i < text.len() - 1 {
                assert(text[i] == number_text(number / 10)[i]);
            }
        }
    }
}

/// Digits followed by what is no digit are all the digits in front.
pub proof fn lemma_leading_digits_stop(digits: Seq<char>, rest: Seq<char>)
    requires
        all_digits(digits),
        rest.len() == 0 || !is_digit(rest[0]),
    ensures
        leading_digits(digits + rest) == digits.len(),
    decreases digits.len(),
{
    let text = digits + rest;
    if digits.len() > 0 {
        assert(text[0] == digits[0]);
        assert(text.skip(1) =~= digits.skip(1) + rest);
        assert forall|i: int| 0 <= i < digits.skip(1).len() implies is_digit(
            #[trigger] digits.skip(1)[i],
        ) by {
            assert(digits.skip(1)[i] == digits[i + 1]);
        }
        lemma_leading_digits_stop(digits.skip(1), rest);
    } else {
        assert(text =~= rest);
    }
}

/// The characters that write digits are digits, and write them.
pub proof fn lemma_digit_char(digit: nat)
    requires
        digit < 10,
    ensures
        is_digit(digit_char(digit)),
        digit_value(digit_char(digit)) == digit,
{
}

/// A digit behind a run of digits makes ten times their number, and itself.
pub proof fn lemma_digits_value_push(digits: Seq<char>, digit: char)
    ensures
        digits_value(digits.push(digit)) == digits_value(digits) * 10 + digit_value(digit),
{
    assert(digits.push(digit).drop_last() =~= digits);
}

/// A count of hundredths, written with its two decimal places, reads as
/// that many hundredths. The text begins and ends with a digit.
pub proof fn lemma_hundredths_read_back(hundredths: nat)
    ensures
        unsigned_value(hundredths_text(hundredths)) == Some(hundredths * 10_000_000),
        hundredths_text(hundredths).len() >= 4,
        is_digit(hundredths_text(hundredths)[0]),
        is_digit(hundredths_text(hundredths).last()),
{
    let whole = number_text(hundredths / 100);
    let tenth = digit_char(hundredths / 10 % 10);
    let last = digit_char(hundredths % 10);
    let behind = seq![tenth, last];
    let body = hundredths_text(hundredths);
    let m = whole.len() as int;
    lemma_number_text_reads_back(hundredths / 100);
    lemma_digit_char(hundredths / 10 % 10);
    lemma_digit_char(hundredths % 10);
    assert(body[0] == whole[0]);

    lemma_leading_digits_stop(whole, seq!['.', tenth, last]);
    assert(body[m] == '.');
    assert(body.skip(m + 1) =~= behind);
    lemma_all_digits_lead(behind);
    assert(body.take(m) =~= whole);
    assert(body.subrange(m + 1, m + 3) =~= behind);
    assert(body.skip(m + 3) =~= Seq::<char>::empty());
    assert(mantissa(body) == whole + behind);
    assert(exponent_value(tail(body)) == Some(0int));

    assert(whole + behind =~= whole.push(tenth).push(last));
    lemma_digits_value_push(whole, tenth);
    lemma_digits_value_push(whole.push(tenth), last);
    assert(digits_value(mantissa(body)) == hundredths);
    reveal_with_fuel(pow10, 8);
    assert(pow10(7) == 10_000_000);
}

/// A text that neither begins nor ends with white space has none to trim.
pub proof fn lemma_nothing_to_trim(text: Seq<char>)
    requires
        text.len() > 0,
        !is_space(text[0]),
        !is_space(text.last()),
    ensures
        trimmed(text) == text,
{
    assert(leading_spaces(text) == 0);
    assert(text.skip(0) =~= text);
    assert(trailing_spaces(text) == 0);
    assert(text.take(text.len() as int) =~= text);
}

/// A minus sign before a number that begins with a digit makes it
/// negative; without a sign the number stands as it is.
pub proof fn lemma_sign_read(body: Seq<char>)
    requires
        body.len() > 0,
        is_digit(body[0]),
        unsigned_value(body) is Some,
    ensures
        signed_value(body) == Some(unsigned_value(body)->0 as int),
        signed_value(seq!['-'] + body) == Some(-(unsigned_value(body)->0 as int)),
{
    assert((seq!['-'] + body).skip(1) =~= body);
    assert((seq!['-'] + body)[0] == '-');
}

/// A magnitude that can be held can still be held when it is rounded to
/// the nearest hundredth.
pub proof fn lemma_rounded_fits(value: int)
    requires
        fits_i64(value),
    ensures
        fits_i64(rounded_to_hundredths(value)),
{
}

/// What is written with two decimal places reads back as the magnitude
/// that was written, rounded to the nearest hundredth.
pub proof fn lemma_two_places_read_back(value: int)
    requires
        fits_i64(value),
    ensures
        fits_i64(rounded_to_hundredths(value)),
        parsed(two_places_text(value)) == Some(rounded_to_hundredths(value) as i64),
{
    let hundredths = nearest_hundredths(value);
    let body = hundredths_text(hundredths);
    let text = two_places_text(value);
    lemma_rounded_fits(value);
    lemma_hundredths_read_back(hundredths);
    lemma_sign_read(body);
    if value < 0 {
        assert(text == seq!['-'] + body);
        assert(text[0] == '-');
        assert(text.last() == body.last());
    } else {
        assert(text =~= body);
    }
    lemma_nothing_to_trim(text);
    assert(signed_value(trimmed(text)) == Some(rounded_to_hundredths(value)));
}

} // verus!
