//! The length of material wound into a roll, taken as a stack of circular
//! layers.

use vstd::prelude::*;
use crate::decimal::{fits_i64, trunc_div, lemma_trunc_div_bounds};
use crate::units::{checked_length, Length, LengthError, LengthUnit, CENTIMETERS};

verus! {

/// The first sixteen digits of pi, as a whole number.
pub const PI_DIGITS: i128 = 3_141_592_653_589_793;

/// The power of ten by which `PI_DIGITS` exceeds pi.
pub const PI_SCALE: i128 = 1_000_000_000_000_000;

/// The largest diameter, in billionths, whose circumference is computed.
pub const WIDEST: i128 = 0x40_0000_0000_0000_0000;

/// The circumference of a circle of diameter `diameter`, rounded toward
/// zero.
pub open spec fn circumference(diameter: int) -> int {
    trunc_div(diameter * PI_DIGITS, PI_SCALE as int)
}

/// How many layers lie between the diameters `inner` and `outer`, the first
/// at `inner` and each `step` wider than the one before: as many as stay
/// strictly below `outer`.
pub open spec fn layer_count(inner: int, outer: int, step: int) -> nat {
    if inner >= outer || step <= 0 {
        0
    } else {
        ((outer - inner + step - 1) / step) as nat
    }
}

/// The summed circumferences of the first `count` layers.
pub open spec fn layers_length(inner: int, step: int, count: nat) -> int
    decreases count,
{
    if count == 0 {
        0
    } else {
        layers_length(inner, step, (count - 1) as nat) + circumference(
            inner + (count - 1) * step,
        )
    }
}

/// The summed circumferences of all the layers between `inner` and `outer`.
pub open spec fn wound_length(inner: int, outer: int, step: int) -> int {
    layers_length(inner, step, layer_count(inner, outer, step))
}

/// Whether the sum can be held after each of the first `count` layers.
pub open spec fn running_lengths_fit(inner: int, step: int, count: nat) -> bool {
    forall|k: nat| k <= count ==> fits_i64(#[trigger] layers_length(inner, step, k))
}

/// What summing the layers gives: their length, where every running sum on
/// the way can be held.
pub open spec fn wound(inner: int, outer: int, step: int) -> Option<i64> {
    if running_lengths_fit(inner, step, layer_count(inner, outer, step)) {
        Some(wound_length(inner, outer, step) as i64)
    } else {
        None
    }
}

/// The layer count is the one number of steps that reaches `outer` and not
/// before.
pub proof fn lemma_layer_count(inner: int, outer: int, step: int, k: nat)
    requires
        step > 0,
        inner < outer,
    ensures
        inner + k * step < outer ==> k < layer_count(inner, outer, step),
        inner + k * step >= outer ==> k >= layer_count(inner, outer, step),
{
    let d = outer - inner;
    let n = (d + step - 1) / step;
    vstd::arithmetic::div_mod::lemma_fundamental_div_mod(d + step - 1, step);
    vstd::arithmetic::div_mod::lemma_mod_bound(d + step - 1, step);
    vstd::arithmetic::div_mod::lemma_div_pos_is_pos(d + step - 1, step);
    assert((n - 1) * step == n * step - step) by (nonlinear_arith);
    if inner + k * step < outer {
        assert(k < n) by (nonlinear_arith)
            requires
                k * step < d,
                n * step >= d,
                step > 0,
        ;
    }
    if inner + k * step >= outer {
        assert(k >= n) by (nonlinear_arith)
            requires
                k * step >= d,
                (n - 1) * step < d,
                step > 0,
        ;
    }
}

/// A circumference is no further from zero than four diameters, and on the
/// same side.
pub proof fn lemma_circumference_bounds(diameter: int)
    ensures
        diameter >= 0 ==> 0 <= circumference(diameter) <= 4 * diameter,
        diameter <= 0 ==> 4 * diameter <= circumference(diameter) <= 0,
{
    let p = diameter * PI_DIGITS;
    let q = circumference(diameter);
    lemma_trunc_div_bounds(p, PI_SCALE as int);
    if diameter >= 0 {
        assert(0 <= p <= 4 * diameter * PI_SCALE) by (nonlinear_arith)
            requires
                p == diameter * PI_DIGITS,
                diameter >= 0,
                0 < PI_DIGITS < 4 * PI_SCALE,
        ;
        assert(0 <= q <= 4 * diameter) by (nonlinear_arith)
            requires
                p - PI_SCALE < q * PI_SCALE <= p,
                0 <= p <= 4 * diameter * PI_SCALE,
                PI_SCALE > 0,
        ;
    }
    if diameter <= 0 {
        assert(4 * diameter * PI_SCALE <= p <= 0) by (nonlinear_arith)
            requires
                p == diameter * PI_DIGITS,
                diameter <= 0,
                0 < PI_DIGITS < 4 * PI_SCALE,
        ;
        assert(4 * diameter <= q <= 0) by (nonlinear_arith)
            requires
                p <= q * PI_SCALE < p + PI_SCALE,
                4 * diameter * PI_SCALE <= p <= 0,
                PI_SCALE > 0,
        ;
    }
}

/// The circumference of one layer.
fn layer_circumference(diameter: i128) -> (r: i128)
    requires
        -WIDEST <= diameter <= WIDEST,
    ensures
        r == circumference(diameter as int),
{
    assert(-WIDEST * PI_DIGITS <= diameter * PI_DIGITS <= WIDEST * PI_DIGITS)
        by (nonlinear_arith)
        requires
            -WIDEST <= diameter <= WIDEST,
            PI_DIGITS > 0,
    ;
    (diameter * PI_DIGITS) / PI_SCALE
}

/// Sums the circumferences of the layers between two diameters, from the
/// inner one outward.
pub fn sum_layers(inner: i128, outer: i128, step: i128) -> (r: Option<i64>)
    requires
        step > 0 || inner >= outer,
        -WIDEST <= inner <= WIDEST,
        -WIDEST <= outer <= WIDEST,
        step <= WIDEST,
    ensures
        r == wound(inner as int, outer as int, step as int),
{
    let mut current: i128 = inner;
    let mut length: i64 = 0;
    let ghost mut done: nat = 0;
    let ghost count = layer_count(inner as int, outer as int, step as int);
    while current < outer
        invariant
            step > 0 || inner >= outer,
            -WIDEST <= inner <= current,
            current <= WIDEST + WIDEST,
            -WIDEST <= outer <= WIDEST,
            step <= WIDEST,
            current == inner + done * step,
            done <= count,
            count == layer_count(inner as int, outer as int, step as int),
            length == layers_length(inner as int, step as int, done),
            running_lengths_fit(inner as int, step as int, done),
        decreases count - done,
    {
        proof {
            lemma_layer_count(inner as int, outer as int, step as int, done);
            lemma_circumference_bounds(current as int);
            assert((done + 1) * step == done * step + step) by (nonlinear_arith);
        }
        let layer: i128 = layer_circumference(current);
        let longer: i128 = length as i128 + layer;
        if longer < i64::MIN as i128 || longer > i64::MAX as i128 {
            assert(!fits_i64(layers_length(inner as int, step as int, done + 1)));
            return None;
        }
        length = longer as i64;
        current = current + step;
        proof {
            done = done + 1;
        }
    }
    proof {
        if inner < outer {
            lemma_layer_count(inner as int, outer as int, step as int, done);
        }
    }
    Some(length)
}

/// The circumference of a circle, from its diameter.
pub fn determine_circumfrence(diameter: i64) -> (r: i128)
    ensures
        r == circumference(diameter as int),
{
    layer_circumference(diameter as i128)
}

/// The length in metres of a roll given in millimetres, its layers counted
/// from `inside_radius_mm` in steps of `thickness_mm` while they stay below
/// `outside_radius_mm`.
pub fn calc_total_length_meters(
    inside_radius_mm: i64,
    outside_radius_mm: i64,
    thickness_mm: i64,
) -> (r: Result<i64, LengthError>)
    requires
        thickness_mm > 0 || inside_radius_mm >= outside_radius_mm,
    ensures
        r == match wound(inside_radius_mm as int, outside_radius_mm as int, thickness_mm as int) {
            Some(total_length_mm) => Ok::<i64, LengthError>(
                trunc_div(total_length_mm as int, 1000) as i64,
            ),
            None => Err(LengthError::OutOfRange),
        },
{
    match sum_layers(inside_radius_mm as i128, outside_radius_mm as i128, thickness_mm as i128) {
        Some(total_length_mm) => Ok(total_length_mm / 1000),
        None => Err(LengthError::OutOfRange),
    }
}

/// A roll of material: the diameter of its core, its diameter over all, and
/// the thickness of the material.
#[derive(Debug, PartialEq, Eq, Structural, Clone, Copy)]
pub struct MaterialRoll {
    pub id: Length,
    pub od: Length,
    pub thickness: Length,
}

impl MaterialRoll {
    /// The inner diameter in billionths of a centimetre.
    pub open spec fn inner(self) -> int {
        self.id.value_in(CENTIMETERS)
    }

    /// The outer diameter in billionths of a centimetre.
    pub open spec fn outer(self) -> int {
        self.od.value_in(CENTIMETERS)
    }

    /// The thickness in billionths of a centimetre.
    pub open spec fn step(self) -> int {
        self.thickness.value_in(CENTIMETERS)
    }

    /// Whether the layers can be counted: each layer is wider than the one
    /// before, or there is no layer at all.
    pub open spec fn is_estimable(self) -> bool {
        self.step() > 0 || self.inner() >= self.outer()
    }

    /// The length of the material in centimetres: the summed circumferences
    /// of the layers, where every running sum can be held.
    pub open spec fn roll_length(self) -> Result<Length, LengthError> {
        match wound(self.inner(), self.outer(), self.step()) {
            Some(length) => Ok(Length { value: length, unit: CENTIMETERS }),
            None => Err(LengthError::OutOfRange),
        }
    }

    /// Whether `get_roll_length` may be called on this roll.
    pub fn can_estimate(&self) -> (r: bool)
        ensures
            r == self.is_estimable(),
    {
        let unit: LengthUnit = CENTIMETERS;
        self.thickness.value(&unit) > 0 || self.id.value(&unit) >= self.od.value(&unit)
    }

    /// The length of the material in the roll, in centimetres. A roll whose
    /// inner diameter is not below its outer diameter holds nothing.
    pub fn get_roll_length(&self) -> (r: Result<Length, LengthError>)
        requires
            self.is_estimable(),
        ensures
            r == self.roll_length(),
            self.inner() >= self.outer() ==> r == Ok::<Length, LengthError>(
                Length { value: 0, unit: CENTIMETERS },
            ),
    {
        let unit: LengthUnit = CENTIMETERS;
        let id_val: i128 = self.id.value(&unit);
        let od: i128 = self.od.value(&unit);
        let thickness: i128 = self.thickness.value(&unit);
        proof {
            self.id.lemma_value_in_bounds(unit);
            self.od.lemma_value_in_bounds(unit);
            self.thickness.lemma_value_in_bounds(unit);
            lemma_no_layers(id_val as int, od as int, thickness as int);
        }
        match sum_layers(id_val, od, thickness) {
            Some(length) => Ok(Length::new(length, unit)),
            None => Err(LengthError::OutOfRange),
        }
    }
}

/// A roll whose inner diameter is not below its outer diameter has no
/// layer, and its length is zero.
pub proof fn lemma_no_layers(inner: int, outer: int, step: int)
    ensures
        inner >= outer ==> wound(inner, outer, step) == Some(0i64),
{
}

/// From a diameter that is not negative outward, the running sums are not
/// negative and never fall.
pub proof fn lemma_layers_length_grows(inner: int, step: int, fewer: nat, more: nat)
    requires
        inner >= 0,
        step >= 0,
        fewer <= more,
    ensures
        0 <= layers_length(inner, step, fewer) <= layers_length(inner, step, more),
    decreases more,
{
    if more > 0 {
        assert(inner + (more - 1) * step >= 0) by (nonlinear_arith)
            requires
                inner >= 0,
                step >= 0,
                more >= 1,
        ;
        lemma_circumference_bounds(inner + (more - 1) * step);
        if fewer < more {
            lemma_layers_length_grows(inner, step, fewer, (more - 1) as nat);
        } else {
            lemma_layers_length_grows(inner, step, (fewer - 1) as nat, (more - 1) as nat);
        }
    }
}

/// Where the inner diameter is not negative, the roll has a length
/// whenever the whole sum can be held.
pub proof fn lemma_whole_length_decides(inner: int, outer: int, step: int)
    requires
        inner >= 0,
    ensures
        wound(inner, outer, step) == if fits_i64(wound_length(inner, outer, step)) {
            Some(wound_length(inner, outer, step) as i64)
        } else {
            None
        },
{
    let count = layer_count(inner, outer, step);
    if fits_i64(wound_length(inner, outer, step)) {
        if count > 0 {
            assert forall|k: nat| k <= count implies fits_i64(
                #[trigger] layers_length(inner, step, k),
            ) by {
                lemma_layers_length_grows(inner, step, k, count);
            }
        }
    }
}

/// The summed diameters of the first `count` layers.
pub open spec fn layers_width(inner: int, step: int, count: nat) -> int
    decreases count,
{
    if count == 0 {
        0
    } else {
        layers_width(inner, step, (count - 1) as nat) + inner + (count - 1) * step
    }
}

/// The length of the layers is pi times their summed diameters, to within
/// one billionth for each layer: that is what rounding each circumference
/// can take or add.
pub proof fn lemma_layers_length_is_pi_times_width(inner: int, step: int, count: nat)
    ensures
        -count * PI_SCALE <= layers_length(inner, step, count) * PI_SCALE - layers_width(
            inner,
            step,
            count,
        ) * PI_DIGITS <= count * PI_SCALE,
    decreases count,
{
    if count > 0 {
        let fewer = (count - 1) as nat;
        let diameter = inner + fewer * step;
        let round = circumference(diameter);
        let length = layers_length(inner, step, fewer);
        let width = layers_width(inner, step, fewer);
        lemma_layers_length_is_pi_times_width(inner, step, fewer);
        lemma_trunc_div_bounds(diameter * PI_DIGITS, PI_SCALE as int);
        assert((length + round) * PI_SCALE == length * PI_SCALE + round * PI_SCALE)
            by (nonlinear_arith);
        assert((width + diameter) * PI_DIGITS == width * PI_DIGITS + diameter * PI_DIGITS)
            by (nonlinear_arith);
        assert(layers_width(inner, step, count) == width + diameter);
    }
}

/// A roll measured in mixed units has the length of the same roll with its
/// three measures first brought to centimetres.
pub proof fn lemma_common_unit(roll: MaterialRoll, same: MaterialRoll)
    requires
        checked_length(roll.inner(), CENTIMETERS) == Ok::<Length, LengthError>(same.id),
        checked_length(roll.outer(), CENTIMETERS) == Ok::<Length, LengthError>(same.od),
        checked_length(roll.step(), CENTIMETERS) == Ok::<Length, LengthError>(same.thickness),
    ensures
        same.is_estimable() == roll.is_estimable(),
        same.roll_length() == roll.roll_length(),
{
}

} // verus!
