use scrutipy::decimal::Decimal;
use scrutipy::grim::{grim_rust, grim_scalar_rust, GrimError, GrimReturn};
use scrutipy::grim_stats::{grim_probability, grim_ratio, grim_total};

fn default_threshold() -> Decimal {
    Decimal::from_int(5)
}

/// The square root of f64's machine epsilon, to eleven digits.
fn exact() -> Decimal {
    Decimal::new(14901161193, 18)
}

fn grim_tester(grim_result: Result<GrimReturn, GrimError>, expected: bool) {
    match grim_result {
        Ok(grim_return) => assert_eq!(grim_return.consistent(), expected),
        Err(e) => panic!("unexpected error {:?}", e),
    }
}

#[test]
pub fn grim_scalar_rust_test_1() {
    let val = grim_scalar_rust(
        "5.19",
        40,
        vec![false, false, false],
        1,
        vec!["up_or_down"],
        default_threshold(),
        exact(),
    );
    grim_tester(val, false)
}

#[test]
pub fn grim_scalar_rust_test_2() {
    let val = grim_scalar_rust(
        "5.18",
        40,
        vec![false, false, false],
        1,
        vec!["up_or_down"],
        default_threshold(),
        exact(),
    );
    grim_tester(val, true);
}

#[test]
pub fn grim_scalar_rust_test_3() {
    let val = grim_scalar_rust(
        "5.19",
        40,
        vec![false, false, false],
        2,
        vec!["up_or_down"],
        default_threshold(),
        exact(),
    );
    grim_tester(val, true);
}

#[test]
pub fn grim_scalar_rust_test_4() {
    let val = grim_scalar_rust(
        "5.19",
        20,
        vec![false, true, false],
        1,
        vec!["up_or_down"],
        default_threshold(),
        exact(),
    );
    grim_tester(val, false);
}

#[test]
pub fn grim_rust_test_1() {
    let xs = vec![
        "7.22", "4.74", "5.23", "2.57", "6.77", "2.68", "7.01", "7.38", "3.14", "6.89", "5.00",
        "0.24",
    ];

    let ns = vec![32, 25, 29, 24, 27, 28, 29, 26, 27, 31, 25, 28];

    let items = vec![1; 12];

    let (bools, errors) = grim_rust(
        xs,
        ns,
        vec![false, false, false],
        items,
        vec!["up_or_down"],
        default_threshold(),
        exact(),
    )
    .unwrap();

    assert_eq!(
        bools,
        vec![true, false, false, false, false, true, false, true, false, false, true, false]
    );
    assert!(errors.is_empty());
}

#[test]
pub fn grim_probability_test_1() {
    let val = grim_probability("8.2", 6, 1, true).unwrap();
    assert_eq!(val.numer as f64 / val.denom as f64, 0.994)
}

#[test]
pub fn grim_probability_test_2() {
    let val = grim_probability("6.7", 9, 1, false).unwrap();
    assert_eq!(val.numer as f64 / val.denom as f64, 0.1)
}

#[test]
pub fn grim_probability_test_3() {
    let val = grim_probability("3.333", 3, 3, false).unwrap();
    assert_eq!(val.numer as f64 / val.denom as f64, 0.991)
}

#[test]
pub fn grim_probability_test_4() {
    let val = grim_probability("60.7", 9, 7, false).unwrap();
    assert_eq!(val.numer as f64 / val.denom as f64, 0.0)
}

#[test]
pub fn grim_ratio_test_1() {
    let val = grim_ratio("8.2", 6, 1, true).unwrap();
    assert_eq!(val.numer as f64 / val.denom as f64, 0.994)
}

#[test]
pub fn grim_ratio_test_2() {
    let val = grim_ratio("6.7", 9, 1, false).unwrap();
    assert_eq!(val.numer as f64 / val.denom as f64, 0.1)
}

#[test]
pub fn grim_ratio_test_3() {
    let val = grim_ratio("3.333", 3, 3, false).unwrap();
    assert_eq!(val.numer as f64 / val.denom as f64, 0.991)
}

#[test]
pub fn grim_ratio_test_4() {
    let val = grim_ratio("60.7", 9, 7, false).unwrap();
    assert_eq!(val.numer as f64 / val.denom as f64, -5.3)
}

#[test]
pub fn grim_total_test_1() {
    let val = grim_total("8.2", 6, 1, true);
    assert_eq!(val, Some(994))
}

#[test]
pub fn grim_total_test_2() {
    let val = grim_total("6.7", 9, 1, false);
    assert_eq!(val, Some(1))
}

#[test]
pub fn grim_total_test_3() {
    let val = grim_total("3.333", 3, 3, false);
    assert_eq!(val, Some(991))
}

#[test]
pub fn grim_total_test_4() {
    let val = grim_total("60.7", 9, 7, false);
    assert_eq!(val, Some(-53))
}

#[test]
fn grim_total_needs_decimal_places() {
    assert_eq!(grim_total("5", 10, 1, false), None);
    assert_eq!(grim_total("1.", 10, 1, false), None);
}

#[test]
fn grim_exact_ratio_values() {
    let r = grim_ratio("60.7", 9, 7, false).unwrap();
    assert_eq!((r.numer, r.denom), (-53, 10));
    let p = grim_probability("60.7", 9, 7, false).unwrap();
    assert_eq!((p.numer, p.denom), (0, 10));
    let p = grim_probability("8.2", 6, 1, true).unwrap();
    assert_eq!((p.numer, p.denom), (994, 1000));
}

#[test]
fn grim_reconstruction_is_returned_when_asked() {
    let val = grim_scalar_rust(
        "5.18",
        40,
        vec![false, true, false],
        1,
        vec!["up_or_down"],
        default_threshold(),
        exact(),
    )
    .unwrap();
    match val {
        GrimReturn::List(consistent, rec) => {
            assert!(consistent);
            assert_eq!(rec.sum_lower, 207);
            assert_eq!(rec.sum_upper, 208);
            // 208/40 = 5.20, widened either way, rounds to 5.20; 207/40 = 5.175 rounds to
            // 5.17 just below the tie and to 5.18 just above it, whichever way halves go
            assert_eq!(rec.grains, vec![520, 520, 520, 520, 517, 517, 518, 518]);
        }
        GrimReturn::Bool(_) => panic!("expected the reconstruction"),
    }
}

#[test]
fn grim_tolerance_widens_the_verdict() {
    let strict = grim_scalar_rust(
        "5.19",
        40,
        vec![false, false, false],
        1,
        vec!["up_or_down"],
        default_threshold(),
        exact(),
    )
    .unwrap();
    assert!(!strict.consistent());
    let loose = grim_scalar_rust(
        "5.19",
        40,
        vec![false, false, false],
        1,
        vec!["up_or_down"],
        default_threshold(),
        Decimal::new(1, 2),
    )
    .unwrap();
    assert!(loose.consistent());
}

#[test]
fn grim_percent_shifts_precision() {
    // 51.8% of 40 is 20.72: no whole count of 40 gives it
    let val = grim_scalar_rust(
        "51.8",
        40,
        vec![true, false, false],
        1,
        vec!["up_or_down"],
        default_threshold(),
        exact(),
    )
    .unwrap();
    assert!(!val.consistent());
    // 52.5% of 40 is 21
    let val = grim_scalar_rust(
        "52.5",
        40,
        vec![true, false, false],
        1,
        vec!["up_or_down"],
        default_threshold(),
        exact(),
    )
    .unwrap();
    assert!(val.consistent());
}

#[test]
fn grim_errors() {
    let e = grim_scalar_rust(
        "abc",
        40,
        vec![false, false, false],
        1,
        vec!["up_or_down"],
        default_threshold(),
        exact(),
    );
    assert_eq!(e.err(), Some(GrimError::NotNumeric));
    let e = grim_scalar_rust(
        "5.19",
        40,
        vec![false, false, false],
        1,
        vec!["sideways"],
        default_threshold(),
        exact(),
    );
    assert_eq!(e.err(), Some(GrimError::InvalidMode));
    let e = grim_scalar_rust(
        "5.19",
        40,
        vec![false, false, false],
        1,
        vec!["up_or_down", "up"],
        default_threshold(),
        exact(),
    );
    assert_eq!(e.err(), Some(GrimError::MixedModes));
    let e = grim_scalar_rust(
        "5.19",
        40,
        vec![false, false, false],
        1,
        vec!["up_from"],
        default_threshold(),
        exact(),
    );
    assert_eq!(e.err(), Some(GrimError::ThresholdNotSpecified));
    let e = grim_scalar_rust(
        "5.19",
        0,
        vec![false, false, false],
        1,
        vec!["up"],
        default_threshold(),
        exact(),
    );
    assert_eq!(e.err(), Some(GrimError::InvalidSampleSize));
    let e = grim_scalar_rust(
        "0.12345678901234567",
        40,
        vec![true, false, false],
        1,
        vec!["up"],
        default_threshold(),
        exact(),
    );
    assert_eq!(e.err(), Some(GrimError::OutOfRange));
}

#[test]
fn grim_batch_isolates_bad_rows() {
    let (bools, errors) = grim_rust(
        vec!["5.18", "x", "5.19"],
        vec![40, 40, 40],
        vec![false, false, false],
        vec![1, 1, 1],
        vec!["up_or_down"],
        default_threshold(),
        exact(),
    )
    .unwrap();
    assert_eq!(bools, vec![true, false, false]);
    assert_eq!(errors, vec![1]);
    let e = grim_rust(
        vec!["5.18"],
        vec![40, 40],
        vec![false, false, false],
        vec![1],
        vec!["up_or_down"],
        default_threshold(),
        exact(),
    );
    assert_eq!(e.err(), Some(GrimError::LengthMismatch));
}

#[test]
fn is_near_compares_mantissas() {
    assert!(scrutipy::grim::is_near(518, 519, 1));
    assert!(!scrutipy::grim::is_near(517, 519, 1));
    assert!(scrutipy::grim::is_near(-5, -5, 0));
    assert!(!scrutipy::grim::is_near(5, 5, -1));
}

#[test]
fn grim_widening_admits_grid_neighbours() {
    // 3/25 = 0.12 exactly; 0.12 + 1e-12 rounds up to 0.13
    let val = grim_scalar_rust(
        "0.13",
        25,
        vec![false, false, false],
        1,
        vec!["ceiling"],
        default_threshold(),
        exact(),
    )
    .unwrap();
    assert!(val.consistent());
    let val = grim_scalar_rust(
        "0.14",
        25,
        vec![false, false, false],
        1,
        vec!["ceiling"],
        default_threshold(),
        exact(),
    )
    .unwrap();
    assert!(!val.consistent());
    // 207/40 = 5.175 exactly: under `up` alone, the point just below rounds to 5.17
    let val = grim_scalar_rust(
        "5.17",
        40,
        vec![false, false, false],
        1,
        vec!["up"],
        default_threshold(),
        exact(),
    )
    .unwrap();
    assert!(val.consistent());
}
