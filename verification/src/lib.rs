//! Lengths with units, and an estimate of how much material is wound into a
//! roll.
//!
//! Magnitudes are exact decimals. A magnitude is a whole number of
//! billionths (10^-9) of its unit, held in 64 bits; a wider number stands
//! for a magnitude on its way through a conversion. Whatever rounds, rounds
//! toward zero, and says so in its contract; whatever cannot be held is
//! reported, never wrapped. So every bound that the library states is a
//! theorem: a conversion there and back stays within a hundred billionths,
//! and the length of a roll is pi times the summed diameters of its layers
//! to within a billionth for each layer.
//!
//! - [`decimal`]: division that rounds toward zero.
//! - [`parse`], [`format`]: magnitudes read from text and written as text.
//! - [`units`], [`order`]: units, lengths, their arithmetic and their order.
//! - [`roll`]: the length of a roll.
//! - [`gui`]: what a window's entry fields hold, and the roll they describe.

pub mod decimal;
pub mod text;
pub mod parse;
pub mod format;
pub mod units;
pub mod order;
pub mod roll;
pub mod gui;

pub use crate::roll::{calc_total_length_meters, determine_circumfrence, MaterialRoll};
pub use crate::units::{
    parse_str, Length, LengthError, LengthUnit, Unit, CENTIMETERS, EPSILON, INCHES, METERS, YARDS,
};
