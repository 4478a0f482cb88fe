use estimator::units::{Length, LengthError, LengthUnit, Unit, CENTIMETERS, INCHES, METERS, YARDS};
use estimator::{MaterialRoll, EPSILON};

const G: i64 = 1_000_000_000;

const UNITS: [LengthUnit; 4] = [METERS, CENTIMETERS, INCHES, YARDS];

#[test]
fn round_trip_stays_within_tolerance() {
    let samples: [i64; 9] =
        [0, 1, -1, 123_456_789, -123_456_789, 66 * G + 110_000_000, -5 * G, 999_999_999, 77 * G];
    for from in UNITS {
        for to in UNITS {
            for value in samples {
                let length = Length::new(value, from);
                let there = length.convert_to(to).unwrap();
                assert_eq!(to, there.unit);
                let back = there.convert_to(from).unwrap();
                assert_eq!(from, back.unit);
                assert!((back.value - value).abs() <= 100);
                assert!((back.value - value).abs() <= EPSILON);
                assert!(back.value.abs() <= value.abs());
            }
        }
    }
}

#[test]
fn round_trip_exact_values() {
    let inch = Length::new(G, INCHES);
    let in_yards = inch.convert_to(YARDS).unwrap();
    assert_eq!(27_777_777, in_yards.value);
    assert_eq!(999_999_972, in_yards.convert_to(INCHES).unwrap().value);
    let cm = Length::new(-123_456_789, CENTIMETERS);
    let in_meters = cm.convert_to(METERS).unwrap();
    assert_eq!(-1_234_567, in_meters.value);
    assert_eq!(-123_456_700, in_meters.convert_to(CENTIMETERS).unwrap().value);
}

#[test]
fn same_unit_conversion_is_exact() {
    for unit in UNITS {
        for value in [0, 1, -1, i64::MAX, i64::MIN, 77_333_333_333] {
            let length = Length::new(value, unit);
            assert_eq!(Ok(length), length.convert_to(unit));
            assert_eq!(value as i128, length.value(&unit));
        }
    }
}

#[test]
fn conversion_out_of_range_is_reported() {
    let far = Length::new(i64::MAX, METERS);
    assert_eq!(922_337_203_685_477_580_700i128, far.value(&CENTIMETERS));
    assert_eq!(Err(LengthError::OutOfRange), far.convert_to(CENTIMETERS));
    assert!(far.convert_to(YARDS).is_err());
    assert!(Length::new(i64::MAX, CENTIMETERS).convert_to(METERS).is_ok());
}

#[test]
fn equal_quantities_compare_equal_from_both_sides() {
    let pairs = [
        (Length::new(500 * G, CENTIMETERS), Length::new(5 * G, METERS)),
        (Length::new(36 * G, INCHES), Length::new(G, YARDS)),
        (Length::new(100 * G, INCHES), Length::new(254 * G, CENTIMETERS)),
        (Length::new(-9_144, METERS), Length::new(-10_000, YARDS)),
    ];
    for (a, b) in pairs {
        assert!(a.is_less_than_or_equal(&b) && b.is_less_than_or_equal(&a));
        assert!(a.is_greater_than_or_equal(&b) && b.is_greater_than_or_equal(&a));
        assert!(!a.is_less_than(&b) && !b.is_less_than(&a));
        assert!(!a.is_greater_than(&b) && !b.is_greater_than(&a));
        assert_eq!(Some(std::cmp::Ordering::Equal), a.partial_cmp(&b));
        assert_eq!(Some(std::cmp::Ordering::Equal), b.partial_cmp(&a));
    }
}

#[test]
fn five_centimetres_are_less_than_five_metres() {
    let small = Length::new(5 * G, CENTIMETERS);
    let large = Length::new(5 * G, METERS);
    assert!(small < large);
    assert!(large > small);
    assert_eq!(Some(std::cmp::Ordering::Less), small.partial_cmp(&large));
    assert_eq!(Some(std::cmp::Ordering::Greater), large.partial_cmp(&small));
}

#[test]
fn a_smaller_quantity_is_never_above() {
    let samples = [
        Length::new(1, INCHES),
        Length::new(2, CENTIMETERS),
        Length::new(3, CENTIMETERS),
        Length::new(-7, YARDS),
        Length::new(G, METERS),
        Length::new(39 * G, INCHES),
    ];
    for a in samples {
        for b in samples {
            let qa = a.unit.value_to_reference(a.value);
            let qb = b.unit.value_to_reference(b.value);
            if qa <= qb {
                assert!(a.is_less_than_or_equal(&b));
                assert!(b.is_greater_than_or_equal(&a));
            }
        }
    }
}

#[test]
fn a_roll_without_room_for_a_layer_has_no_length() {
    let zero_cm = Length::new(0, CENTIMETERS);
    for unit in UNITS {
        let same = MaterialRoll {
            id: Length::new(4 * G, unit),
            od: Length::new(4 * G, unit),
            thickness: Length::new(G, INCHES),
        };
        assert!(same.can_estimate());
        assert_eq!(Ok(zero_cm), same.get_roll_length());
    }
    let inverted = MaterialRoll {
        id: Length::new(5 * G, METERS),
        od: Length::new(4 * G, METERS),
        thickness: Length::new(-G, METERS),
    };
    assert!(inverted.can_estimate());
    assert_eq!(Ok(zero_cm), inverted.get_roll_length());
    let equal_across_units = MaterialRoll {
        id: Length::new(G, METERS),
        od: Length::new(100 * G, CENTIMETERS),
        thickness: Length::new(0, METERS),
    };
    assert!(equal_across_units.can_estimate());
    assert_eq!(Ok(zero_cm), equal_across_units.get_roll_length());
}

#[test]
fn mixed_units_match_a_common_unit() {
    let mixed = MaterialRoll {
        id: Length::new(10 * G, CENTIMETERS),
        od: Length::new(G, METERS),
        thickness: Length::new(5 * G, CENTIMETERS),
    };
    let common = MaterialRoll {
        id: mixed.id.convert_to(CENTIMETERS).unwrap(),
        od: mixed.od.convert_to(CENTIMETERS).unwrap(),
        thickness: mixed.thickness.convert_to(CENTIMETERS).unwrap(),
    };
    assert_eq!(Length::new(100 * G, CENTIMETERS), common.od);
    let length = mixed.get_roll_length().unwrap();
    assert_eq!(common.get_roll_length().unwrap(), length);
    assert_eq!(Length::new(2_968_805_057_634, CENTIMETERS), length);
    // eighteen layers, of 10, 15, .., 95 centimetres
    let expected = 945.0 * std::f64::consts::PI;
    assert!((length.value as f64 / 1e9 - expected).abs() < 0.000016);

    let inches = MaterialRoll {
        id: Length::new(4 * G, INCHES),
        od: Length::new(12 * G, INCHES),
        thickness: Length::new(80_000_000, INCHES),
    };
    let brought = MaterialRoll {
        id: inches.id.convert_to(CENTIMETERS).unwrap(),
        od: inches.od.convert_to(CENTIMETERS).unwrap(),
        thickness: inches.thickness.convert_to(CENTIMETERS).unwrap(),
    };
    assert_eq!(brought.get_roll_length(), inches.get_roll_length());
}

#[test]
fn roll_lengths_are_exact() {
    let one = MaterialRoll {
        id: Length::new(4 * G, INCHES),
        od: Length::new(5 * G, INCHES),
        thickness: Length::new(G, INCHES),
    };
    let length = one.get_roll_length().unwrap();
    assert_eq!(Length::new(31_918_581_360, CENTIMETERS), length);
    assert_eq!(12_566_370_614i128, length.value(&INCHES));

    let two = MaterialRoll {
        id: Length::new(4 * G, INCHES),
        od: Length::new(6 * G, INCHES),
        thickness: Length::new(G, INCHES),
    };
    let length = two.get_roll_length().unwrap();
    assert_eq!(Length::new(71_816_808_060, CENTIMETERS), length);
    assert_eq!(28_274_333_881i128, length.value(&INCHES));

    let fresh = MaterialRoll {
        id: Length::new(4 * G, INCHES),
        od: Length::new(12 * G, INCHES),
        thickness: Length::new(80_000_000, INCHES),
    };
    let length = fresh.get_roll_length().unwrap();
    assert_eq!(6_351_797_690_683, length.value);
    assert_eq!(69_464_104_228, length.convert_to(YARDS).unwrap().value);
    assert_eq!("69.46 yrd", length.convert_to(YARDS).unwrap().format());
}

#[test]
fn a_layer_at_the_outer_diameter_is_left_out() {
    // layers at 1 cm and 2 cm; the one at 3 cm would lie on the outer diameter
    let roll = MaterialRoll {
        id: Length::new(G, CENTIMETERS),
        od: Length::new(3 * G, CENTIMETERS),
        thickness: Length::new(G, CENTIMETERS),
    };
    assert_eq!(Ok(Length::new(3_141_592_653 + 6_283_185_307, CENTIMETERS)), roll.get_roll_length());
    // just above it, the third layer counts
    let roll = MaterialRoll { od: Length::new(3 * G + 1, CENTIMETERS), ..roll };
    assert_eq!(
        Ok(Length::new(3_141_592_653 + 6_283_185_307 + 9_424_777_960, CENTIMETERS)),
        roll.get_roll_length()
    );
}

#[test]
fn a_roll_from_below_zero_counts_its_layers_as_they_come() {
    let roll = MaterialRoll {
        id: Length::new(-2 * G, CENTIMETERS),
        od: Length::new(2 * G, CENTIMETERS),
        thickness: Length::new(G, CENTIMETERS),
    };
    assert_eq!(Ok(Length::new(-6_283_185_307, CENTIMETERS)), roll.get_roll_length());
}

#[test]
fn a_roll_too_long_to_hold_is_reported() {
    let roll = MaterialRoll {
        id: Length::new(1_000_000_000_000_000_000, CENTIMETERS),
        od: Length::new(3_000_000_000_000_000_000, CENTIMETERS),
        thickness: Length::new(1_000_000_000_000_000_000, CENTIMETERS),
    };
    assert!(roll.can_estimate());
    assert_eq!(Err(LengthError::OutOfRange), roll.get_roll_length());
    let shorter = MaterialRoll { od: Length::new(2_000_000_000_000_000_000, CENTIMETERS), ..roll };
    assert_eq!(
        Ok(Length::new(3_141_592_653_589_793_000, CENTIMETERS)),
        shorter.get_roll_length()
    );
}

#[test]
fn a_roll_that_cannot_be_estimated_is_told_apart() {
    let stuck = MaterialRoll {
        id: Length::new(4 * G, INCHES),
        od: Length::new(5 * G, INCHES),
        thickness: Length::new(0, INCHES),
    };
    assert!(!stuck.can_estimate());
    let backwards = MaterialRoll { thickness: Length::new(-G, INCHES), ..stuck };
    assert!(!backwards.can_estimate());
    let thin = MaterialRoll { thickness: Length::new(1, INCHES), ..stuck };
    assert!(thin.can_estimate());
}

#[test]
fn the_length_is_pi_times_the_summed_diameters() {
    const PI_DIGITS: i128 = 3_141_592_653_589_793;
    const PI_SCALE: i128 = 1_000_000_000_000_000;
    assert_eq!(PI_DIGITS, estimator::roll::PI_DIGITS);
    assert_eq!(PI_SCALE, estimator::roll::PI_SCALE);
    let rolls: [(i64, i64, i64); 5] = [
        (4 * G, 12 * G, 80_000_000),
        (1, 1_000, 7),
        (-50 * G, 50 * G, 3 * G),
        (123_456_789, 987_654_321, 1_234_567),
        (0, 1, 1),
    ];
    for (inner, outer, step) in rolls {
        let roll = MaterialRoll {
            id: Length::new(inner, CENTIMETERS),
            od: Length::new(outer, CENTIMETERS),
            thickness: Length::new(step, CENTIMETERS),
        };
        let length = roll.get_roll_length().unwrap().value as i128;
        let mut count: i128 = 0;
        let mut width: i128 = 0;
        let mut diameter = inner as i128;
        while diameter < outer as i128 {
            width += diameter;
            count += 1;
            diameter += step as i128;
        }
        let off = length * PI_SCALE - width * PI_DIGITS;
        assert!(off.abs() <= count * PI_SCALE);
    }
}
