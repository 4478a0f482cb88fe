//! Reading magnitudes from text.
//!
//! A number is written as digits with an optional point among them, and
//! optionally a power of ten behind them, as in `12`, `0.08`, `.5` or
//! `2.5e-3`. What is read is a whole number of billionths, rounded toward
//! zero.

use vstd::prelude::*;
use vstd::arithmetic::div_mod::{lemma_basic_div, lemma_div_denominator, lemma_fundamental_div_mod_converse};
use crate::decimal::fits_i64;
use crate::text::chars_of;

verus! {

/// Whether `c` is white space, as Unicode defines it.
pub open spec fn is_space(c: char) -> bool {
    let code = c as u32;
    ||| 0x09 <= code <= 0x0D
    ||| code == 0x20
    ||| code == 0x85
    ||| code == 0xA0
    ||| code == 0x1680
    ||| 0x2000 <= code <= 0x200A
    ||| code == 0x2028
    ||| code == 0x2029
    ||| code == 0x202F
    ||| code == 0x205F
    ||| code == 0x3000
}

/// Whether `c` is one of the ten digits.
pub open spec fn is_digit(c: char) -> bool {
    '0' <= c <= '9'
}

/// The number that a digit stands for.
pub open spec fn digit_value(c: char) -> nat
    recommends
        is_digit(c),
{
    (c as u32 - '0' as u32) as nat
}

/// How many characters of white space `text` begins with.
pub open spec fn leading_spaces(text: Seq<char>) -> nat
    decreases text.len(),
{
    if text.len() > 0 && is_space(text[0]) {
        1 + leading_spaces(text.skip(1))
    } else {
        0
    }
}

/// How many characters of white space `text` ends with.
pub open spec fn trailing_spaces(text: Seq<char>) -> nat
    decreases text.len(),
{
    if text.len() > 0 && is_space(text.last()) {
        1 + trailing_spaces(text.drop_last())
    } else {
        0
    }
}

/// `text` without the white space around it.
pub open spec fn trimmed(text: Seq<char>) -> Seq<char> {
    let rest = text.skip(leading_spaces(text) as int);
    rest.take(rest.len() - trailing_spaces(rest))
}

/// How many digits `text` begins with.
pub open spec fn leading_digits(text: Seq<char>) -> nat
    decreases text.len(),
{
    if text.len() > 0 && is_digit(text[0]) {
        1 + leading_digits(text.skip(1))
    } else {
        0
    }
}

/// Whether `text` holds digits and nothing else.
pub open spec fn all_digits(text: Seq<char>) -> bool {
    forall|i: int| 0 <= i < text.len() ==> is_digit(#[trigger] text[i])
}

/// The number written by a run of digits; an empty run writes zero.
pub open spec fn digits_value(digits: Seq<char>) -> nat
    decreases digits.len(),
{
    if digits.len() == 0 {
        0
    } else {
        digits_value(digits.drop_last()) * 10 + digit_value(digits.last())
    }
}

/// Ten to the power `n`.
pub open spec fn pow10(n: nat) -> nat
    decreases n,
{
    if n == 0 {
        1
    } else {
        10 * pow10((n - 1) as nat)
    }
}

/// `number` times ten to the power `shift`, rounded toward zero.
pub open spec fn scaled(number: nat, shift: int) -> nat {
    if shift >= 0 {
        number * pow10(shift as nat)
    } else {
        number / pow10((-shift) as nat)
    }
}

/// The digits of a power of ten that is written as `tail`: what follows
/// the letter and the sign.
pub open spec fn exponent_digits(tail: Seq<char>) -> Seq<char> {
    if tail.len() > 1 && (tail[1] == '-' || tail[1] == '+') {
        tail.skip(2)
    } else {
        tail.skip(1)
    }
}

/// The power of ten that `tail` writes: none where `tail` is empty, and
/// else the letter `e`, small or capital, an optional sign, and at least
/// one digit.
pub open spec fn exponent_value(tail: Seq<char>) -> Option<int> {
    let digits = exponent_digits(tail);
    if tail.len() == 0 {
        Some(0)
    } else if (tail[0] == 'e' || tail[0] == 'E') && digits.len() > 0 && all_digits(digits) {
        if tail[1] == '-' {
            Some(-(digits_value(digits) as int))
        } else {
            Some(digits_value(digits) as int)
        }
    } else {
        None
    }
}

/// How many digits stand behind the point of the number that `text` begins
/// with: none where no point follows its leading digits.
pub open spec fn places(text: Seq<char>) -> nat {
    let whole = leading_digits(text) as int;
    if whole < text.len() && text[whole] == '.' {
        leading_digits(text.skip(whole + 1))
    } else {
        0
    }
}

/// The digits of the number that `text` begins with, those before the
/// point and those behind it.
pub open spec fn mantissa(text: Seq<char>) -> Seq<char> {
    let whole = leading_digits(text) as int;
    if whole < text.len() && text[whole] == '.' {
        text.take(whole) + text.subrange(whole + 1, whole + 1 + places(text))
    } else {
        text.take(whole)
    }
}

/// What follows the number that `text` begins with.
pub open spec fn tail(text: Seq<char>) -> Seq<char> {
    let whole = leading_digits(text) as int;
    if whole < text.len() && text[whole] == '.' {
        text.skip(whole + 1 + places(text))
    } else {
        text.skip(whole)
    }
}

/// The billionths written by a number without a sign: digits with an
/// optional point among them, at least one digit in all, and optionally a
/// power of ten.
pub open spec fn unsigned_value(text: Seq<char>) -> Option<nat> {
    if mantissa(text).len() == 0 {
        None
    } else {
        match exponent_value(tail(text)) {
            Some(exponent) => Some(
                scaled(digits_value(mantissa(text)), 9 + exponent - places(text)),
            ),
            None => None,
        }
    }
}

/// The billionths written by a number that may begin with a sign.
pub open spec fn signed_value(text: Seq<char>) -> Option<int> {
    if text.len() > 0 && text[0] == '-' {
        match unsigned_value(text.skip(1)) {
            Some(magnitude) => Some(-(magnitude as int)),
            None => None,
        }
    } else if text.len() > 0 && text[0] == '+' {
        match unsigned_value(text.skip(1)) {
            Some(magnitude) => Some(magnitude as int),
            None => None,
        }
    } else {
        match unsigned_value(text) {
            Some(magnitude) => Some(magnitude as int),
            None => None,
        }
    }
}

/// What `text` reads as: the number written between the white space around
/// it, in billionths, where it is a number and can be held.
pub open spec fn parsed(text: Seq<char>) -> Option<i64> {
    match signed_value(trimmed(text)) {
        Some(value) => if fits_i64(value) {
            Some(value as i64)
        } else {
            None
        },
        None => None,
    }
}

/// Whether a character is white space.
pub fn is_whitespace(c: char) -> (r: bool)
    ensures
        r == is_space(c),
{
    let code: u32 = c as u32;
    (0x09 <= code && code <= 0x0D) || code == 0x20 || code == 0x85 || code == 0xA0 || code
        == 0x1680 || (0x2000 <= code && code <= 0x200A) || code == 0x2028 || code == 0x2029 || code
        == 0x202F || code == 0x205F || code == 0x3000
}

/// Whether a character is a digit.
pub fn is_decimal_digit(c: char) -> (r: bool)
    ensures
        r == is_digit(c),
{
    '0' <= c && c <= '9'
}

/// Where the text between the white space begins and ends.
fn trim_bounds(chars: &Vec<char>) -> (bounds: (usize, usize))
    ensures
        bounds.0 <= bounds.1 <= chars.len(),
        chars@.subrange(bounds.0 as int, bounds.1 as int) == trimmed(chars@),
{
    let n: usize = chars.len();
    let mut start: usize = 0;
    assert(chars@.skip(0) =~= chars@);
    while start < n && is_whitespace(chars[start])
        invariant
            n == chars.len(),
            start <= n,
            leading_spaces(chars@) == start + leading_spaces(chars@.skip(start as int)),
        decreases n - start,
    {
        assert(chars@.skip(start as int).skip(1) =~= chars@.skip(start + 1));
        start = start + 1;
    }
    let ghost rest = chars@.skip(start as int);
    let mut end: usize = n;
    assert(rest.take(end - start) =~= rest);
    while end > start && is_whitespace(chars[end - 1])
        invariant
            n == chars.len(),
            start <= end <= n,
            rest == chars@.skip(start as int),
            trailing_spaces(rest) == (n - end) + trailing_spaces(rest.take(end - start)),
        decreases end,
    {
        assert(rest.take(end - start).drop_last() =~= rest.take(end - start - 1));
        end = end - 1;
    }
    assert(rest.take(end - start) =~= chars@.subrange(start as int, end as int));
    (start, end)
}

/// How many digits stand at the front of `chars[from..to]`.
fn count_digits(chars: &Vec<char>, from: usize, to: usize) -> (count: usize)
    requires
        from <= to <= chars.len(),
    ensures
        count == leading_digits(chars@.subrange(from as int, to as int)),
        from + count <= to,
        all_digits(chars@.subrange(from as int, from + count)),
{
    let mut at: usize = from;
    while at < to && is_decimal_digit(chars[at])
        invariant
            from <= at <= to <= chars.len(),
            leading_digits(chars@.subrange(from as int, to as int)) == (at - from) + leading_digits(
                chars@.subrange(at as int, to as int),
            ),
            all_digits(chars@.subrange(from as int, at as int)),
        decreases to - at,
    {
        assert(chars@.subrange(at as int, to as int).skip(1) =~= chars@.subrange(
            at + 1,
            to as int,
        ));
        at = at + 1;
    }
    at - from
}

/// A text of digits alone begins with as many digits as it is long.
pub proof fn lemma_all_digits_lead(text: Seq<char>)
    requires
        all_digits(text),
    ensures
        leading_digits(text) == text.len(),
    decreases text.len(),
{
    if text.len() > 0 {
        assert(is_digit(text[0]));
        assert forall|i: int| 0 <= i < text.skip(1).len() implies is_digit(
            #[trigger] text.skip(1)[i],
        ) by {
            assert(text.skip(1)[i] == text[i + 1]);
        }
        lemma_all_digits_lead(text.skip(1));
    }
}

/// A longer run of digits writes no smaller a number than its beginning.
pub proof fn lemma_digits_value_grows(digits: Seq<char>, shorter: int)
    requires
        0 <= shorter <= digits.len(),
    ensures
        digits_value(digits.take(shorter)) <= digits_value(digits),
    decreases digits.len(),
{
    if shorter == digits.len() {
        assert(digits.take(shorter) =~= digits);
    } else {
        lemma_digits_value_grows(digits.drop_last(), shorter);
        assert(digits.drop_last().take(shorter) =~= digits.take(shorter));
    }
}

/// Powers of ten are above zero and grow with the exponent.
pub proof fn lemma_pow10_grows(smaller: nat, larger: nat)
    requires
        smaller <= larger,
    ensures
        0 < pow10(smaller) <= pow10(larger),
    decreases larger,
{
    if smaller < larger {
        lemma_pow10_grows(smaller, (larger - 1) as nat);
    } else if larger > 0 {
        lemma_pow10_grows((smaller - 1) as nat, (larger - 1) as nat);
    }
}

/// A run of digits writes a number below ten to the power of its length.
pub proof fn lemma_digits_value_bound(digits: Seq<char>)
    requires
        all_digits(digits),
    ensures
        digits_value(digits) < pow10(digits.len()),
    decreases digits.len(),
{
    if digits.len() > 0 {
        let front = digits.drop_last();
        assert(all_digits(front)) by {
            assert forall|i: int| 0 <= i < front.len() implies is_digit(#[trigger] front[i]) by {
                assert(front[i] == digits[i]);
            }
        }
        lemma_digits_value_bound(front);
        assert(is_digit(digits.last()));
    }
}

/// The first digits of a run write the number of the whole run divided by
/// the power of ten of the digits left out, rounded toward zero.
pub proof fn lemma_digits_value_take(digits: Seq<char>, kept: int)
    requires
        all_digits(digits),
        0 <= kept <= digits.len(),
    ensures
        digits_value(digits.take(kept)) == digits_value(digits) / pow10(
            (digits.len() - kept) as nat,
        ),
    decreases digits.len(),
{
    if kept == digits.len() {
        assert(digits.take(kept) =~= digits);
        assert(pow10(0) == 1);
        assert(digits_value(digits) / 1 == digits_value(digits)) by (nonlinear_arith);
    } else {
        let front = digits.drop_last();
        let rest = (digits.len() - 1 - kept) as nat;
        assert(all_digits(front)) by {
            assert forall|i: int| 0 <= i < front.len() implies is_digit(#[trigger] front[i]) by {
                assert(front[i] == digits[i]);
            }
        }
        lemma_digits_value_take(front, kept);
        assert(front.take(kept) =~= digits.take(kept));
        assert(is_digit(digits.last()));
        let whole = digits_value(digits) as int;
        let most = digits_value(front) as int;
        lemma_fundamental_div_mod_converse(whole, 10, most, digit_value(digits.last()) as int);
        assert(most == whole / 10);
        lemma_pow10_grows(0, rest);
        lemma_div_denominator(whole, 10, pow10(rest) as int);
        assert((whole / 10) / (pow10(rest) as int) == whole / (10 * (pow10(rest) as int)));
        assert(pow10((rest + 1) as nat) == 10 * pow10(rest));
        assert(digits.len() - kept == rest + 1);
        assert(digits_value(digits.take(kept)) == most / (pow10(rest) as int));
    }
}

/// The largest magnitude of a number that can be held: that of the least
/// number.
pub const MAGNITUDE_LIMIT: u128 = 0x8000_0000_0000_0000;

/// The largest power of ten that is read digit by digit. A larger one
/// leaves a number at zero or takes it out of range.
pub const EXPONENT_LIMIT: u128 = 1_000_000_000_000_000_000_000_000_000_000;

/// The number written by the digits `chars[from..to]`, where it is no
/// larger than `limit`.
fn read_digits(chars: &Vec<char>, from: usize, to: usize, limit: u128) -> (r: Option<u128>)
    requires
        from <= to <= chars.len(),
        all_digits(chars@.subrange(from as int, to as int)),
        limit <= EXPONENT_LIMIT,
    ensures
        r == if digits_value(chars@.subrange(from as int, to as int)) <= limit {
            Some(digits_value(chars@.subrange(from as int, to as int)) as u128)
        } else {
            None
        },
{
    let ghost digits = chars@.subrange(from as int, to as int);
    let mut number: u128 = 0;
    let mut at: usize = from;
    assert(chars@.subrange(from as int, from as int) =~= Seq::<char>::empty());
    while at < to
        invariant
            from <= at <= to <= chars.len(),
            digits == chars@.subrange(from as int, to as int),
            all_digits(digits),
            number == digits_value(chars@.subrange(from as int, at as int)),
            number <= limit <= EXPONENT_LIMIT,
        decreases to - at,
    {
        proof {
            assert(is_digit(digits[at - from]));
            assert(chars@.subrange(from as int, at + 1).drop_last() =~= chars@.subrange(
                from as int,
                at as int,
            ));
        }
        let digit: u128 = (chars[at] as u32 - '0' as u32) as u128;
        let longer: u128 = number * 10 + digit;
        if longer > limit {
            proof {
                lemma_digits_value_grows(digits, at + 1 - from);
                assert(digits.take(at + 1 - from) =~= chars@.subrange(from as int, at + 1));
            }
            return None;
        }
        number = longer;
        at = at + 1;
    }
    assert(chars@.subrange(from as int, at as int) =~= digits);
    Some(number)
}

/// `number` with `zeros` zeros written behind it, where that is no more
/// than the largest magnitude.
fn append_zeros(number: u128, zeros: u128) -> (r: Option<u128>)
    requires
        number <= MAGNITUDE_LIMIT,
    ensures
        r == if number * pow10(zeros as nat) <= MAGNITUDE_LIMIT {
            Some((number * pow10(zeros as nat)) as u128)
        } else {
            None
        },
{
    if number == 0 {
        assert(0 * pow10(zeros as nat) == 0) by (nonlinear_arith);
        return Some(0);
    }
    let mut value: u128 = number;
    let mut done: u128 = 0;
    assert(number * pow10(0) == number) by (nonlinear_arith)
        requires
            pow10(0) == 1,
    ;
    while done < zeros
        invariant
            done <= zeros,
            0 < number,
            value == number * pow10(done as nat),
            value <= MAGNITUDE_LIMIT,
        decreases zeros - done,
    {
        proof {
            lemma_pow10_grows((done + 1) as nat, zeros as nat);
            assert(number * pow10((done + 1) as nat) == value * 10) by (nonlinear_arith)
                requires
                    value == number * pow10(done as nat),
                    pow10((done + 1) as nat) == 10 * pow10(done as nat),
            ;
            assert(number * pow10((done + 1) as nat) <= number * pow10(zeros as nat))
                by (nonlinear_arith)
                requires
                    pow10((done + 1) as nat) <= pow10(zeros as nat),
                    0 < number,
            ;
        }
        if value > 922_337_203_685_477_580 {
            return None;
        }
        value = value * 10;
        done = done + 1;
    }
    Some(value)
}

/// The number written by `digits`, times ten to the power `shift`, rounded
/// toward zero, where that is no more than the largest magnitude.
fn scale_digits(digits: &Vec<char>, shift: i128) -> (r: Option<u128>)
    requires
        all_digits(digits@),
        -(EXPONENT_LIMIT as int) * 2 <= shift <= EXPONENT_LIMIT as int * 2,
    ensures
        r == if scaled(digits_value(digits@), shift as int) <= MAGNITUDE_LIMIT {
            Some(scaled(digits_value(digits@), shift as int) as u128)
        } else {
            None
        },
{
    let n: usize = digits.len();
    assert(digits@.subrange(0, n as int) =~= digits@);
    if shift < 0 {
        let dropped: u128 = (-shift) as u128;
        if dropped >= n as u128 {
            proof {
                lemma_digits_value_bound(digits@);
                lemma_pow10_grows(n as nat, dropped as nat);
                lemma_basic_div(digits_value(digits@) as int, pow10(dropped as nat) as int);
            }
            return Some(0);
        }
        let kept: usize = n - dropped as usize;
        proof {
            lemma_digits_value_take(digits@, kept as int);
            assert(digits@.subrange(0, kept as int) =~= digits@.take(kept as int));
        }
        read_digits(digits, 0, kept, MAGNITUDE_LIMIT)
    } else {
        proof {
            lemma_pow10_grows(0, shift as nat);
            assert(digits_value(digits@) <= digits_value(digits@) * pow10(shift as nat))
                by (nonlinear_arith)
                requires
                    0 < pow10(shift as nat),
            ;
        }
        match read_digits(digits, 0, n, MAGNITUDE_LIMIT) {
            Some(number) => append_zeros(number, shift as u128),
            None => None,
        }
    }
}

/// The digits `chars[from..point]` and `chars[after..to]` in one run.
fn gather_digits(chars: &Vec<char>, from: usize, point: usize, after: usize, to: usize) -> (digits:
    Vec<char>)
    requires
        from <= point <= after <= to <= chars.len(),
        all_digits(chars@.subrange(from as int, point as int)),
        all_digits(chars@.subrange(after as int, to as int)),
    ensures
        digits@ == chars@.subrange(from as int, point as int) + chars@.subrange(
            after as int,
            to as int,
        ),
        all_digits(digits@),
{
    let mut digits: Vec<char> = Vec::new();
    let mut at: usize = from;
    while at < point
        invariant
            from <= at <= point <= chars.len(),
            digits@ == chars@.subrange(from as int, at as int),
        decreases point - at,
    {
        digits.push(chars[at]);
        at = at + 1;
        assert(digits@ =~= chars@.subrange(from as int, at as int));
    }
    at = after;
    while at < to
        invariant
            from <= point <= after <= at <= to <= chars.len(),
            digits@ == chars@.subrange(from as int, point as int) + chars@.subrange(
                after as int,
                at as int,
            ),
        decreases to - at,
    {
        digits.push(chars[at]);
        at = at + 1;
        assert(digits@ =~= chars@.subrange(from as int, point as int) + chars@.subrange(
            after as int,
            at as int,
        ));
    }
    proof {
        let whole = chars@.subrange(from as int, point as int);
        let fraction = chars@.subrange(after as int, to as int);
        assert forall|i: int| 0 <= i < digits@.len() implies is_digit(#[trigger] digits@[i]) by {
            if i < whole.len() {
                assert(digits@[i] == whole[i]);
            } else {
                assert(digits@[i] == fraction[i - whole.len()]);
            }
        }
    }
    digits
}

/// Where the number at the front of `chars[from..to]` has its point, where
/// its digits go on behind the point, and where they end. A number without
/// a point has the first two at the end of its digits.
fn measure_mantissa(chars: &Vec<char>, from: usize, to: usize) -> (at: (usize, usize, usize))
    requires
        from <= to <= chars.len(),
    ensures
        from <= at.0 <= at.1 <= at.2 <= to,
        at.2 - at.1 == places(chars@.subrange(from as int, to as int)),
        all_digits(chars@.subrange(from as int, at.0 as int)),
        all_digits(chars@.subrange(at.1 as int, at.2 as int)),
        chars@.subrange(from as int, at.0 as int) + chars@.subrange(at.1 as int, at.2 as int)
            == mantissa(chars@.subrange(from as int, to as int)),
        chars@.subrange(at.2 as int, to as int) == tail(chars@.subrange(from as int, to as int)),
{
    let ghost text = chars@.subrange(from as int, to as int);
    let whole: usize = count_digits(chars, from, to);
    let point: usize = from + whole;
    assert(text.take(whole as int) =~= chars@.subrange(from as int, point as int));
    if point < to && chars[point] == '.' {
        let after: usize = point + 1;
        assert(text.skip(whole + 1) =~= chars@.subrange(after as int, to as int));
        let behind: usize = count_digits(chars, after, to);
        assert(text.subrange(whole + 1, whole + 1 + behind) =~= chars@.subrange(
            after as int,
            after + behind,
        ));
        assert(text.skip(whole + 1 + behind) =~= chars@.subrange(after + behind, to as int));
        (point, after, after + behind)
    } else {
        assert(chars@.subrange(point as int, point as int) =~= Seq::<char>::empty());
        assert(text.take(whole as int) + Seq::<char>::empty() =~= text.take(whole as int));
        assert(text.skip(whole as int) =~= chars@.subrange(point as int, to as int));
        (point, point, point)
    }
}

/// The power of ten written by `chars[from..to]`, where it is one: whether
/// it is below zero, and how far it is from zero, where that is no more
/// than the limit.
fn read_exponent(chars: &Vec<char>, from: usize, to: usize) -> (r: Option<(bool, Option<u128>)>)
    requires
        from <= to <= chars.len(),
    ensures
        r is None <==> exponent_value(chars@.subrange(from as int, to as int)) is None,
        r matches Some((negative, Some(distance))) ==> distance <= EXPONENT_LIMIT
            && exponent_value(chars@.subrange(from as int, to as int)) == Some(
            if negative {
                -(distance as int)
            } else {
                distance as int
            },
        ),
        r matches Some((negative, None)) ==> (negative ==> exponent_value(
            chars@.subrange(from as int, to as int),
        )->0 < -(EXPONENT_LIMIT as int)) && (!negative ==> exponent_value(
            chars@.subrange(from as int, to as int),
        )->0 > EXPONENT_LIMIT as int),
{
    let ghost tail = chars@.subrange(from as int, to as int);
    if from == to {
        return Some((false, Some(0)));
    }
    if chars[from] != 'e' && chars[from] != 'E' {
        return None;
    }
    let signed: bool = from + 1 < to && (chars[from + 1] == '-' || chars[from + 1] == '+');
    let negative: bool = signed && chars[from + 1] == '-';
    let first: usize = if signed {
        from + 2
    } else {
        from + 1
    };
    let ghost power = exponent_digits(tail);
    assert(power =~= chars@.subrange(first as int, to as int));
    let count: usize = count_digits(chars, first, to);
    if count == 0 || first + count != to {
        proof {
            if all_digits(power) {
                lemma_all_digits_lead(power);
            }
        }
        return None;
    }
    Some((negative, read_digits(chars, first, to, EXPONENT_LIMIT)))
}

/// A number scaled down by at least as many places as it has digits is
/// nothing.
pub proof fn lemma_scaled_far_down(digits: Seq<char>, shift: int)
    requires
        all_digits(digits),
        shift <= -digits.len(),
    ensures
        scaled(digits_value(digits), shift) == 0,
{
    lemma_digits_value_bound(digits);
    if shift < 0 {
        lemma_pow10_grows(digits.len(), (-shift) as nat);
        lemma_basic_div(digits_value(digits) as int, pow10((-shift) as nat) as int);
    } else {
        assert(pow10(0) == 1);
    }
}

/// A number scaled up by nineteen places or more stays nothing or is past
/// the largest magnitude.
pub proof fn lemma_scaled_far_up(number: nat, shift: int)
    requires
        shift >= 19,
    ensures
        number == 0 ==> scaled(number, shift) == 0,
        number > 0 ==> scaled(number, shift) > MAGNITUDE_LIMIT,
{
    reveal_with_fuel(pow10, 20);
    lemma_pow10_grows(19, shift as nat);
    assert(0 * pow10(shift as nat) == 0) by (nonlinear_arith);
    if number > 0 {
        assert(number * pow10(shift as nat) >= pow10(19)) by (nonlinear_arith)
            requires
                number >= 1,
                pow10(shift as nat) >= pow10(19),
        ;
    }
}

/// The billionths written by the number without a sign in
/// `chars[from..to]`, where it is one and its negative can be held.
fn read_unsigned(chars: &Vec<char>, from: usize, to: usize) -> (r: Option<u128>)
    requires
        from <= to <= chars.len(),
    ensures
        r == match unsigned_value(chars@.subrange(from as int, to as int)) {
            Some(magnitude) => if magnitude <= MAGNITUDE_LIMIT {
                Some(magnitude as u128)
            } else {
                None
            },
            None => None,
        },
{
    let (point, after, rest) = measure_mantissa(chars, from, to);
    let digits: Vec<char> = gather_digits(chars, from, point, after, rest);
    if digits.len() == 0 {
        return None;
    }
    let behind: i128 = (rest - after) as i128;
    match read_exponent(chars, rest, to) {
        None => None,
        Some((negative, Some(distance))) => if negative {
            scale_digits(&digits, 9 - distance as i128 - behind)
        } else {
            scale_digits(&digits, 9 + distance as i128 - behind)
        },
        Some((negative, None)) => {
            let ghost exponent = exponent_value(chars@.subrange(rest as int, to as int))->0;
            if negative {
                proof {
                    lemma_scaled_far_down(digits@, 9 + exponent - behind);
                }
                Some(0)
            } else {
                proof {
                    lemma_scaled_far_up(digits_value(digits@), 9 + exponent - behind);
                }
                assert(digits@.subrange(0, digits@.len() as int) =~= digits@);
                match read_digits(&digits, 0, digits.len(), 0) {
                    Some(_) => Some(0),
                    None => None,
                }
            }
        },
    }
}

/// Reads a number in decimal notation: white space around it is passed
/// over; a sign may come first; then digits with an optional point among
/// them, and optionally a power of ten. The result is in billionths,
/// rounded toward zero. Text that is no such number, or one too large to
/// hold, reads as nothing.
pub fn parse_decimal(input: &str) -> (r: Option<i64>)
    ensures
        r == parsed(input@),
{
    let chars: Vec<char> = chars_of(input);
    let (start, end) = trim_bounds(&chars);
    let ghost text = chars@.subrange(start as int, end as int);
    if start < end && chars[start] == '-' {
        assert(text.skip(1) =~= chars@.subrange(start + 1, end as int));
        match read_unsigned(&chars, start + 1, end) {
            Some(magnitude) => Some((-(magnitude as i128)) as i64),
            None => None,
        }
    } else if start < end && chars[start] == '+' {
        assert(text.skip(1) =~= chars@.subrange(start + 1, end as int));
        match read_unsigned(&chars, start + 1, end) {
            Some(magnitude) => if magnitude > 0x7fff_ffff_ffff_ffff {
                None
            } else {
                Some(magnitude as i64)
            },
            None => None,
        }
    } else {
        match read_unsigned(&chars, start, end) {
            Some(magnitude) => if magnitude > 0x7fff_ffff_ffff_ffff {
                None
            } else {
                Some(magnitude as i64)
            },
            None => None,
        }
    }
}

} // verus!
