use estimator::{calc_total_length_meters, determine_circumfrence};

const EPSILON: f64 = 0.00001f64;

fn billionths(value: f64) -> i64 {
    (value * 1e9).round() as i64
}

fn assert_is_within(actual: f64, expected: f64, epsilon: f64) {
    let diff: f64 = (actual - expected).abs();
    assert!(diff < epsilon)
}

#[test]
fn test_determine_circumference() {
    assert_is_within(
        12.56637,
        determine_circumfrence(billionths(4f64)) as f64 / 1e9,
        EPSILON,
    );
}

#[test]
fn test_calc_total_length_meters() {
    // radii of 2 mm and 3 mm, in steps of 1 mm: one layer, of 2 pi millimetres
    let length = calc_total_length_meters(billionths(2.0), billionths(3.0), billionths(1.0));
    assert_eq!(Ok(6_283_185), length);
    // a step too wide to fit a second layer changes nothing
    assert_eq!(
        Ok(6_283_185),
        calc_total_length_meters(billionths(2.0), billionths(3.0), billionths(5.0))
    );
    // 1 m, 1.002 m: layers at 1000 mm and 1001 mm
    let two = calc_total_length_meters(billionths(1000.0), billionths(1002.0), billionths(1.0));
    assert_is_within(two.unwrap() as f64 / 1e9, 2001.0 * std::f64::consts::PI / 1000.0, EPSILON);
}

#[test]
fn circumferences_round_toward_zero() {
    assert_eq!(12_566_370_614, determine_circumfrence(4_000_000_000));
    assert_eq!(-12_566_370_614, determine_circumfrence(-4_000_000_000));
    assert_eq!(3, determine_circumfrence(1));
    assert_eq!(-3, determine_circumfrence(-1));
    assert_eq!(0, determine_circumfrence(0));
    assert_eq!(28_976_077_832_308_489_166, determine_circumfrence(i64::MAX));
}

#[test]
fn a_roll_in_millimetres_without_layers_has_no_length() {
    assert_eq!(Ok(0), calc_total_length_meters(billionths(3.0), billionths(3.0), billionths(1.0)));
    assert_eq!(Ok(0), calc_total_length_meters(billionths(3.0), billionths(2.0), 0));
    assert_eq!(Ok(0), calc_total_length_meters(billionths(3.0), billionths(2.0), -5));
}

#[test]
fn a_roll_in_millimetres_too_long_to_hold_is_reported() {
    assert_eq!(
        Err(estimator::LengthError::OutOfRange),
        calc_total_length_meters(
            1_000_000_000_000_000_000,
            3_000_000_000_000_000_000,
            1_000_000_000_000_000_000
        )
    );
}
