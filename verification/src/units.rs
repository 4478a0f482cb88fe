//! Units of length, and lengths that carry their unit.

use vstd::prelude::*;
use vstd::string::StringExecFns;
use crate::decimal::{div_toward_zero, fits_i64, lemma_trunc_div_bounds, trunc_div, SCALE};
use crate::format::{format_two_places, two_places_text};
use crate::parse::{parse_decimal, parsed};

verus! {

/// A unit of measurement, defined by what one of it is worth in a shared
/// reference unit.
///
/// Magnitudes are counted in billionths of the unit. Reference quantities are
/// counted in ticks, fine enough that a whole number of ticks makes a
/// billionth of every unit: converting to the reference is exact, and only
/// the way back rounds.
pub trait Unit {
    /// Ticks of the reference unit in one billionth of this unit.
    spec fn ticks(&self) -> int;

    /// The text of the abbreviation.
    spec fn abbrev_text(&self) -> Seq<char>;

    /// The text of the full name.
    spec fn full_name_text(&self) -> Seq<char>;

    /// One of a unit is worth more than nothing.
    proof fn lemma_ticks_positive(&self)
        ensures
            self.ticks() > 0,
    ;

    /// The unit's abbreviation, as it follows a magnitude.
    fn abbrev(&self) -> (r: &'static str)
        ensures
            r@ == self.abbrev_text(),
    ;

    /// A magnitude of this unit, in ticks of the reference unit.
    fn value_to_reference(&self, value: i64) -> (r: i128)
        ensures
            r == value * self.ticks(),
    ;

    /// A reference quantity, in billionths of this unit, rounded toward zero.
    fn value_from_reference(&self, ref_value: i128) -> (r: i128)
        ensures
            r == trunc_div(ref_value as int, self.ticks()),
    ;

    /// The unit's name.
    fn full_name(&self) -> (r: &'static str)
        ensures
            r@ == self.full_name_text(),
    ;
}

/// The tolerance, in billionths, within which two magnitudes are taken to
/// agree.
pub const EPSILON: i64 = 16_000;

/// The units of length. The reference unit is the metre, and a tick is
/// 10^-13 m.
#[derive(Debug, PartialEq, Eq, Structural, Clone, Copy)]
pub enum LengthUnit {
    Meters,
    Centimeters,
    Inches,
    Yards,
}

/// The metre, `m`: the reference unit.
pub const METERS: LengthUnit = LengthUnit::Meters;

/// The centimetre, `cm`: 0.01 m.
pub const CENTIMETERS: LengthUnit = LengthUnit::Centimeters;

/// The inch, `in`: 0.0254 m.
pub const INCHES: LengthUnit = LengthUnit::Inches;

/// The yard, `yrd`: 0.9144 m.
pub const YARDS: LengthUnit = LengthUnit::Yards;

impl LengthUnit {
    /// Ticks in one billionth of the unit: a metre is 1, a centimetre 0.01,
    /// an inch 0.0254 and a yard 0.9144 metres.
    pub open spec fn factor(self) -> int {
        match self {
            LengthUnit::Meters => 10_000,
            LengthUnit::Centimeters => 100,
            LengthUnit::Inches => 254,
            LengthUnit::Yards => 9_144,
        }
    }

    /// The factor by which a magnitude becomes a reference quantity.
    pub fn factor_to_reference(&self) -> (f: i128)
        ensures
            f == self.factor(),
    {
        match self {
            LengthUnit::Meters => 10_000,
            LengthUnit::Centimeters => 100,
            LengthUnit::Inches => 254,
            LengthUnit::Yards => 9_144,
        }
    }
}

impl Unit for LengthUnit {
    open spec fn ticks(&self) -> int {
        self.factor()
    }

    open spec fn abbrev_text(&self) -> Seq<char> {
        match self {
            LengthUnit::Meters => "m"@,
            LengthUnit::Centimeters => "cm"@,
            LengthUnit::Inches => "in"@,
            LengthUnit::Yards => "yrd"@,
        }
    }

    open spec fn full_name_text(&self) -> Seq<char> {
        match self {
            LengthUnit::Meters => "Meters"@,
            LengthUnit::Centimeters => "Centimeters"@,
            LengthUnit::Inches => "Inches"@,
            LengthUnit::Yards => "Yards"@,
        }
    }

    proof fn lemma_ticks_positive(&self) {
    }

    fn abbrev(&self) -> (r: &'static str) {
        match self {
            LengthUnit::Meters => "m",
            LengthUnit::Centimeters => "cm",
            LengthUnit::Inches => "in",
            LengthUnit::Yards => "yrd",
        }
    }

    fn value_to_reference(&self, value: i64) -> (r: i128) {
        let f: i128 = self.factor_to_reference();
        assert(-0x8000_0000_0000_0000 * 10_000 <= value * f <= 0x8000_0000_0000_0000 * 10_000)
            by (nonlinear_arith)
            requires
                -0x8000_0000_0000_0000 <= value < 0x8000_0000_0000_0000,
                0 < f <= 10_000,
        ;
        (value as i128) * f
    }

    fn value_from_reference(&self, ref_value: i128) -> (r: i128) {
        ref_value / self.factor_to_reference()
    }

    fn full_name(&self) -> (r: &'static str) {
        match self {
            LengthUnit::Meters => "Meters",
            LengthUnit::Centimeters => "Centimeters",
            LengthUnit::Inches => "Inches",
            LengthUnit::Yards => "Yards",
        }
    }
}

/// Why an operation on lengths gives no length.
#[derive(Debug, PartialEq, Eq, Structural, Clone, Copy)]
pub enum LengthError {
    /// The divisor is zero.
    DivisionByZero,
    /// The result is too large for a magnitude.
    OutOfRange,
}

/// A magnitude, in billionths of its unit, with that unit.
#[derive(Debug, PartialEq, Eq, Structural, Clone, Copy)]
pub struct Length {
    pub value: i64,
    pub unit: LengthUnit,
}

/// The length of magnitude `value` in `unit`, where `value` can be held.
pub open spec fn checked_length(value: int, unit: LengthUnit) -> Result<Length, LengthError> {
    if fits_i64(value) {
        Ok(Length { value: value as i64, unit })
    } else {
        Err(LengthError::OutOfRange)
    }
}

/// Makes a length of a magnitude that may be too large to hold.
pub fn length_of(value: i128, unit: LengthUnit) -> (r: Result<Length, LengthError>)
    ensures
        r == checked_length(value as int, unit),
{
    if value < i64::MIN as i128 || value > i64::MAX as i128 {
        Err(LengthError::OutOfRange)
    } else {
        Ok(Length { value: value as i64, unit })
    }
}

impl Length {
    /// The magnitude of this length in billionths of `unit`: the length's
    /// own magnitude where `unit` is its unit, and else its reference
    /// quantity divided by the factor of `unit`, rounded toward zero.
    pub open spec fn value_in(self, unit: LengthUnit) -> int {
        if self.unit == unit {
            self.value as int
        } else {
            trunc_div(self.value * self.unit.factor(), unit.factor())
        }
    }

    /// No magnitude of a length, in whatever unit, is further from zero
    /// than a hundred times the largest magnitude that can be held.
    pub proof fn lemma_value_in_bounds(self, unit: LengthUnit)
        ensures
            -100 * 0x8000_0000_0000_0000 <= self.value_in(unit) <= 100 * 0x8000_0000_0000_0000,
    {
        if self.unit != unit {
            let p = self.value * self.unit.factor();
            let f = unit.factor();
            lemma_trunc_div_bounds(p, f);
            let q = trunc_div(p, f);
            assert(-0x8000_0000_0000_0000 * 10_000 <= p <= 0x8000_0000_0000_0000 * 10_000)
                by (nonlinear_arith)
                requires
                    p == self.value * self.unit.factor(),
                    -0x8000_0000_0000_0000 <= self.value < 0x8000_0000_0000_0000,
                    0 < self.unit.factor() <= 10_000,
            ;
            assert(-100 * 0x8000_0000_0000_0000 <= q <= 100 * 0x8000_0000_0000_0000)
                by (nonlinear_arith)
                requires
                    -0x8000_0000_0000_0000 * 10_000 <= p <= 0x8000_0000_0000_0000 * 10_000,
                    f >= 100,
                    p >= 0 ==> p - f < q * f <= p,
                    p <= 0 ==> p <= q * f < p + f,
            ;
        }
    }

    /// A length above zero is above zero in every unit that is no larger
    /// than its own.
    pub proof fn lemma_stays_positive(self, unit: LengthUnit)
        requires
            self.value > 0,
            unit.factor() <= self.unit.factor(),
        ensures
            self.value_in(unit) > 0,
    {
        if self.unit != unit {
            let p = self.value * self.unit.factor();
            let f = unit.factor();
            lemma_trunc_div_bounds(p, f);
            let q = trunc_div(p, f);
            assert(p >= f) by (nonlinear_arith)
                requires
                    p == self.value * self.unit.factor(),
                    self.value >= 1,
                    self.unit.factor() >= f,
                    f > 0,
            ;
            assert(q > 0) by (nonlinear_arith)
                requires
                    p - f < q * f,
                    p >= f,
                    f > 0,
            ;
        }
    }

    /// The length of `value` billionths of `unit`.
    pub fn new(value: i64, unit: LengthUnit) -> (r: Length)
        ensures
            r.value == value,
            r.unit == unit,
    {
        Length { value: value, unit: unit }
    }

    /// This length in `unit`, where its magnitude there can be held.
    pub fn convert_to(&self, unit: LengthUnit) -> (r: Result<Length, LengthError>)
        ensures
            r == checked_length(self.value_in(unit), unit),
            unit == self.unit ==> r == Ok::<Length, LengthError>(*self),
    {
        let converted_value: i128 = self.value(&unit);
        length_of(converted_value, unit)
    }

    /// The magnitude of this length in billionths of `unit`. Every
    /// magnitude of a length has room in the result.
    pub fn value(&self, unit: &LengthUnit) -> (r: i128)
        ensures
            r == self.value_in(*unit),
    {
        if self.unit == *unit {
            self.value as i128
        } else {
            let value_as_reference: i128 = self.unit.value_to_reference(self.value);
            unit.value_from_reference(value_as_reference)
        }
    }

    /// Whether this length is above `other`, both taken in the unit of this
    /// one.
    pub fn is_greater_than(&self, other: &Length) -> (r: bool)
        ensures
            r == (self.value > other.value_in(self.unit)),
    {
        self.value as i128 > other.value(&self.unit)
    }

    /// Whether this length is below `other`, both taken in the unit of this
    /// one.
    pub fn is_less_than(&self, other: &Length) -> (r: bool)
        ensures
            r == (self.value < other.value_in(self.unit)),
    {
        (self.value as i128) < other.value(&self.unit)
    }

    /// Whether this length is not below `other`.
    pub fn is_greater_than_or_equal(&self, other: &Length) -> (r: bool)
        ensures
            r == (self.value >= other.value_in(self.unit)),
    {
        !self.is_less_than(other)
    }

    /// Whether this length is not above `other`.
    pub fn is_less_than_or_equal(&self, other: &Length) -> (r: bool)
        ensures
            r == (self.value <= other.value_in(self.unit)),
    {
        !self.is_greater_than(other)
    }

    /// The sum of two lengths, in the unit of the first.
    pub fn add(self, other: Length) -> (r: Result<Length, LengthError>)
        ensures
            r == checked_length(self.value + other.value_in(self.unit), self.unit),
    {
        proof {
            other.lemma_value_in_bounds(self.unit);
        }
        length_of(self.value as i128 + other.value(&self.unit), self.unit)
    }

    /// The difference of two lengths, in the unit of the first.
    pub fn sub(self, other: Length) -> (r: Result<Length, LengthError>)
        ensures
            r == checked_length(self.value - other.value_in(self.unit), self.unit),
    {
        proof {
            other.lemma_value_in_bounds(self.unit);
        }
        length_of(self.value as i128 - other.value(&self.unit), self.unit)
    }

    /// This length taken `scalar` times, `scalar` being in billionths; the
    /// product is rounded toward zero.
    pub fn mul(self, scalar: i64) -> (r: Result<Length, LengthError>)
        ensures
            r == checked_length(trunc_div(self.value * scalar, SCALE as int), self.unit),
    {
        assert(-0x8000_0000_0000_0000 * 0x8000_0000_0000_0000 <= self.value * scalar
            <= 0x8000_0000_0000_0000 * 0x8000_0000_0000_0000) by (nonlinear_arith)
            requires
                -0x8000_0000_0000_0000 <= self.value < 0x8000_0000_0000_0000,
                -0x8000_0000_0000_0000 <= scalar < 0x8000_0000_0000_0000,
        ;
        let product: i128 = (self.value as i128) * (scalar as i128);
        length_of(div_toward_zero(product, SCALE as i128), self.unit)
    }

    /// This length divided by `divisor`, `divisor` being in billionths; the
    /// quotient is rounded toward zero. There is none by zero.
    pub fn div(self, divisor: i64) -> (r: Result<Length, LengthError>)
        ensures
            r == if divisor == 0 {
                Err(LengthError::DivisionByZero)
            } else {
                checked_length(trunc_div(self.value * SCALE, divisor as int), self.unit)
            },
    {
        if divisor == 0 {
            return Err(LengthError::DivisionByZero);
        }
        let scaled: i128 = (self.value as i128) * (SCALE as i128);
        length_of(div_toward_zero(scaled, divisor as i128), self.unit)
    }

    /// How many times `other` goes into this length, in billionths and
    /// rounded toward zero. The ratio is handed back as a length in the unit
    /// of this one, though it is a plain number. There is none where `other`
    /// is nothing in that unit.
    pub fn div_length(self, other: Length) -> (r: Result<Length, LengthError>)
        ensures
            r == if other.value_in(self.unit) == 0 {
                Err(LengthError::DivisionByZero)
            } else {
                checked_length(
                    trunc_div(self.value * SCALE, other.value_in(self.unit)),
                    self.unit,
                )
            },
    {
        let divisor: i128 = other.value(&self.unit);
        if divisor == 0 {
            return Err(LengthError::DivisionByZero);
        }
        proof {
            other.lemma_value_in_bounds(self.unit);
        }
        let scaled: i128 = (self.value as i128) * (SCALE as i128);
        length_of(div_toward_zero(scaled, divisor), self.unit)
    }

    /// The text of this length: its magnitude with two decimal places, a
    /// space, and the abbreviation of its unit.
    pub open spec fn text(self) -> Seq<char> {
        two_places_text(self.value as int) + seq![' '] + self.unit.abbrev_text()
    }

    /// Writes this length for a reader, as in `40.00 in`.
    pub fn format(&self) -> (r: String)
        ensures
            r@ == self.text(),
    {
        let mut r: String = format_two_places(self.value);
        proof {
            reveal_strlit(" ");
        }
        r.append(" ");
        r.append(self.unit.abbrev());
        r
    }

    /// The length of nothing, in the reference unit.
    pub fn zero() -> (r: Length)
        ensures
            r == (Length { value: 0, unit: LengthUnit::Meters }),
    {
        Length::new(0, METERS)
    }

    /// Whether this length is nothing.
    pub fn is_zero(&self) -> (r: bool)
        ensures
            r == (self.value == 0),
    {
        self.value == 0
    }
}

/// Reads a length in `unit` from text that holds its magnitude in decimal
/// notation. Text that holds no number gives no length.
pub fn parse_str(input: &str, unit: LengthUnit) -> (r: Option<Length>)
    ensures
        r == match parsed(input@) {
            Some(value) => Some(Length { value, unit }),
            None => None,
        },
{
    let trimmed_input: Option<i64> = parse_decimal(input);
    match trimmed_input {
        Some(val) => Some(Length { value: val, unit: unit }),
        None => None,
    }
}

/// Two lengths that are the same quantity of the reference unit compare as
/// equal from either side, whatever their units.
pub proof fn lemma_same_quantity(a: Length, b: Length)
    requires
        a.value * a.unit.factor() == b.value * b.unit.factor(),
    ensures
        b.value_in(a.unit) == a.value,
        a.value_in(b.unit) == b.value,
{
    lemma_quantity_order(a, b);
    lemma_quantity_order(b, a);
}

/// A length that is no larger a quantity of the reference unit than
/// another is not above it in a comparison, whatever their units.
pub proof fn lemma_quantity_order(a: Length, b: Length)
    requires
        a.value * a.unit.factor() <= b.value * b.unit.factor(),
    ensures
        a.value <= b.value_in(a.unit),
        a.value_in(b.unit) <= b.value,
{
    let fa = a.unit.factor();
    let fb = b.unit.factor();
    let pa = a.value * fa;
    let pb = b.value * fb;
    if a.unit != b.unit {
        lemma_trunc_div_bounds(pb, fa);
        let qb = trunc_div(pb, fa);
        assert(a.value <= qb) by (nonlinear_arith)
            requires
                a.value * fa <= pb,
                pb >= 0 ==> pb - fa < qb * fa <= pb,
                pb <= 0 ==> pb <= qb * fa < pb + fa,
                fa > 0,
        ;
        lemma_trunc_div_bounds(pa, fb);
        let qa = trunc_div(pa, fb);
        assert(qa <= b.value) by (nonlinear_arith)
            requires
                pa <= b.value * fb,
                pa >= 0 ==> pa - fb < qa * fb <= pa,
                pa <= 0 ==> pa <= qa * fb < pa + fb,
                fb > 0,
        ;
    } else {
        assert(a.value <= b.value) by (nonlinear_arith)
            requires
                a.value * fa <= b.value * fa,
                fa > 0,
        ;
    }
}

/// Converting a length to another unit and back moves its magnitude by no
/// more than a hundred billionths, toward zero, and so by less than
/// `EPSILON`; the way back never fails.
pub proof fn lemma_round_trip(length: Length, unit: LengthUnit)
    requires
        fits_i64(length.value_in(unit)),
    ensures
        ({
            let there = Length { value: length.value_in(unit) as i64, unit };
            let back = there.value_in(length.unit);
            &&& fits_i64(back)
            &&& length.value >= 0 ==> length.value - 100 <= back <= length.value
            &&& length.value <= 0 ==> length.value <= back <= length.value + 100
            &&& -EPSILON <= back - length.value <= EPSILON
        }),
{
    if length.unit != unit {
        let v = length.value as int;
        let a = length.unit.factor();
        let b = unit.factor();
        let w = trunc_div(v * a, b);
        let back = trunc_div(w * b, a);
        lemma_trunc_div_bounds(v * a, b);
        lemma_trunc_div_bounds(w * b, a);
        if v >= 0 {
            assert(v * a >= 0) by (nonlinear_arith)
                requires
                    v >= 0,
                    a > 0,
            ;
            assert(w >= 0) by (nonlinear_arith)
                requires
                    v * a - b < w * b,
                    v * a >= 0,
                    b > 0,
            ;
            assert(w * b >= 0) by (nonlinear_arith)
                requires
                    w >= 0,
                    b > 0,
            ;
            assert(v - 100 <= back <= v) by (nonlinear_arith)
                requires
                    v * a - b < w * b <= v * a,
                    w * b - a < back * a <= w * b,
                    0 < b <= 100 * a,
                    a > 0,
            ;
        } else {
            assert(v * a <= 0) by (nonlinear_arith)
                requires
                    v <= 0,
                    a > 0,
            ;
            assert(w <= 0) by (nonlinear_arith)
                requires
                    w * b < v * a + b,
                    v * a <= 0,
                    b > 0,
            ;
            assert(w * b <= 0) by (nonlinear_arith)
                requires
                    w <= 0,
                    b > 0,
            ;
            assert(v <= back <= v + 100) by (nonlinear_arith)
                requires
                    v * a <= w * b < v * a + b,
                    w * b <= back * a < w * b + a,
                    0 < b <= 100 * a,
                    a > 0,
            ;
        }
    }
}

} // verus!
