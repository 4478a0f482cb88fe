//! The state behind the entry fields: three texts and a choice of unit.

use vstd::prelude::*;
use crate::format::{
    format_two_places, hundredths_text, lemma_two_places_read_back, number_text, two_places_text,
};
use crate::parse::parsed;
use crate::roll::MaterialRoll;
use crate::units::{parse_str, Length, LengthUnit, Unit, CENTIMETERS, INCHES, YARDS};

verus! {

/// The magnitudes that a window opens with are written as `0.08`, `12.00`
/// and `4.00`.
pub proof fn lemma_opening_texts()
    ensures
        two_places_text(80_000_000) == seq!['0', '.', '0', '8'],
        two_places_text(12_000_000_000) == seq!['1', '2', '.', '0', '0'],
        two_places_text(4_000_000_000) == seq!['4', '.', '0', '0'],
{
    assert(number_text(0) =~= seq!['0']);
    assert(number_text(4) =~= seq!['4']);
    assert(number_text(1) =~= seq!['1']);
    assert(number_text(12) =~= number_text(1).push('2'));
    assert(hundredths_text(8) =~= seq!['0', '.', '0', '8']);
    assert(hundredths_text(1200) =~= seq!['1', '2', '.', '0', '0']);
    assert(hundredths_text(400) =~= seq!['4', '.', '0', '0']);
    assert(two_places_text(80_000_000) =~= hundredths_text(8));
    assert(two_places_text(12_000_000_000) =~= hundredths_text(1200));
    assert(two_places_text(4_000_000_000) =~= hundredths_text(400));
}

/// The texts that a window opens with read back as the magnitudes that
/// they were written from.
pub proof fn lemma_opening_texts_read_back()
    ensures
        parsed(two_places_text(80_000_000)) == Some(80_000_000i64),
        parsed(two_places_text(12_000_000_000)) == Some(12_000_000_000i64),
        parsed(two_places_text(4_000_000_000)) == Some(4_000_000_000i64),
{
    lemma_two_places_read_back(80_000_000);
    lemma_two_places_read_back(12_000_000_000);
    lemma_two_places_read_back(4_000_000_000);
}

/// What the user has entered so far.
pub struct InputState {
    pub thickness_input_value: String,
    pub od_input_value: String,
    pub id_input_value: String,
    pub valid_units: Vec<LengthUnit>,
    pub selected_unit: Option<usize>,
}

impl InputState {
    /// The place in `valid_units` of the unit in which the texts are read:
    /// the selected one, or the first where none is selected.
    pub open spec fn input_index(&self) -> int {
        match self.selected_unit {
            Some(index) => index as int,
            None => 0,
        }
    }

    /// Whether the texts have a unit: the place of the input unit is one of
    /// `valid_units`.
    pub open spec fn has_input_unit(&self) -> bool {
        0 <= self.input_index() < self.valid_units@.len()
    }

    /// The unit in which the texts are read.
    pub open spec fn input_unit(&self) -> LengthUnit
        recommends
            self.has_input_unit(),
    {
        self.valid_units@[self.input_index()]
    }

    /// The roll that the three texts describe: each is read as a number in
    /// the input unit, and together they make a roll where all three are
    /// above zero and the outer diameter is above the inner one.
    pub open spec fn material_roll(&self) -> Option<MaterialRoll>
        recommends
            self.has_input_unit(),
    {
        let unit = self.input_unit();
        match (
            parsed(self.thickness_input_value@),
            parsed(self.id_input_value@),
            parsed(self.od_input_value@),
        ) {
            (Some(thickness), Some(id), Some(od)) => if thickness > 0 && id > 0 && od > 0 && od
                > id {
                Some(
                    MaterialRoll {
                        id: Length { value: id, unit },
                        od: Length { value: od, unit },
                        thickness: Length { value: thickness, unit },
                    },
                )
            } else {
                None
            },
            _ => None,
        }
    }

    /// The state of a window just opened: a thickness of 0.08, an outer
    /// diameter of 12 and an inner diameter of 4, in inches; centimetres
    /// and inches are on offer.
    pub fn new() -> (r: InputState)
        ensures
            r.thickness_input_value@ == seq!['0', '.', '0', '8'],
            r.od_input_value@ == seq!['1', '2', '.', '0', '0'],
            r.id_input_value@ == seq!['4', '.', '0', '0'],
            r.valid_units@ == seq![LengthUnit::Centimeters, LengthUnit::Inches],
            r.selected_unit == Some(1usize),
            r.has_input_unit(),
            r.input_unit() == LengthUnit::Inches,
            r.material_roll() == Some(
                MaterialRoll {
                    id: Length { value: 4_000_000_000, unit: LengthUnit::Inches },
                    od: Length { value: 12_000_000_000, unit: LengthUnit::Inches },
                    thickness: Length { value: 80_000_000, unit: LengthUnit::Inches },
                },
            ),
    {
        let thickness_val: i64 = 80_000_000;
        let od_val: i64 = 12_000_000_000;
        let id_val: i64 = 4_000_000_000;
        let mut valid_units: Vec<LengthUnit> = Vec::new();
        valid_units.push(CENTIMETERS);
        valid_units.push(INCHES);
        proof {
            lemma_opening_texts();
            lemma_opening_texts_read_back();
        }
        InputState {
            thickness_input_value: format_two_places(thickness_val),
            od_input_value: format_two_places(od_val),
            id_input_value: format_two_places(id_val),
            valid_units: valid_units,
            selected_unit: Some(1),
        }
    }

    /// Whether the texts have a unit, so that they can be read.
    pub fn can_read(&self) -> (r: bool)
        ensures
            r == self.has_input_unit(),
    {
        match self.selected_unit {
            Some(index) => index < self.valid_units.len(),
            None => 0 < self.valid_units.len(),
        }
    }

    /// The unit in which the texts are read.
    pub fn get_input_unit(&self) -> (r: LengthUnit)
        requires
            self.has_input_unit(),
        ensures
            r == self.input_unit(),
    {
        match self.selected_unit {
            Some(index) => self.valid_units[index],
            None => self.valid_units[0],
        }
    }

    /// The unit in which the result is shown.
    pub fn get_output_unit(&self) -> (r: LengthUnit)
        ensures
            r == LengthUnit::Yards,
    {
        YARDS
    }

    /// The names of the units on offer, in their order.
    pub fn get_input_unit_strings(&self) -> (r: Vec<String>)
        ensures
            r@.len() == self.valid_units@.len(),
            forall|i: int|
                0 <= i < r@.len() ==> (#[trigger] r@[i])@ == self.valid_units@[i].full_name_text(),
    {
        let mut names: Vec<String> = Vec::new();
        let mut i: usize = 0;
        while i < self.valid_units.len()
            invariant
                i <= self.valid_units@.len(),
                names@.len() == i,
                forall|j: int|
                    0 <= j < i ==> (#[trigger] names@[j])@
                        == self.valid_units@[j].full_name_text(),
            decreases self.valid_units@.len() - i,
        {
            let name: String = self.valid_units[i].full_name().to_owned();
            names.push(name);
            i = i + 1;
        }
        names
    }

    /// The roll that the texts describe, where they describe one. A roll
    /// that comes out of here can be estimated.
    pub fn get_material_roll(&self) -> (r: Option<MaterialRoll>)
        requires
            self.has_input_unit(),
        ensures
            r == self.material_roll(),
            r is Some ==> r->0.is_estimable(),
    {
        let zero: Length = Length::zero();
        let unit: LengthUnit = self.get_input_unit();
        let thickness: Length = match parse_str(self.thickness_input_value.as_str(), unit) {
            Some(length) => length,
            None => {
                return None;
            },
        };
        let id: Length = match parse_str(self.id_input_value.as_str(), unit) {
            Some(length) => length,
            None => {
                return None;
            },
        };
        let od: Length = match parse_str(self.od_input_value.as_str(), unit) {
            Some(length) => length,
            None => {
                return None;
            },
        };
        if thickness.is_greater_than(&zero) && id.is_greater_than(&zero) && od.is_greater_than(
            &zero,
        ) && od.is_greater_than(&id) {
            proof {
                thickness.lemma_stays_positive(CENTIMETERS);
            }
            Some(MaterialRoll { id: id, od: od, thickness: thickness })
        } else {
            None
        }
    }
}

} // verus!
