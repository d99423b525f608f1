use scrutipy::bounds::{unround, RoudingBoundError};
use scrutipy::debit::{debit_scalar, debit_table, DebitError, DebitTable, DebitTables};
use scrutipy::decimal::Decimal;
use scrutipy::grim::GrimError;
use scrutipy::grimmer::{grimmer_scalar, GrimmerError, GrimmerOutcome, GrimmerReturn};

fn reason(x: &str, sd: &str, n: u32) -> Result<GrimmerReturn, GrimmerError> {
    grimmer_scalar(
        x,
        sd,
        n,
        1,
        vec![true, false],
        vec!["up_or_down"],
        Decimal::from_int(5),
        Decimal::from_int(0),
    )
}

#[test]
fn grimmer_passes_consistent_values() {
    assert_eq!(reason("5.21", "1.60", 28), Ok(GrimmerReturn::Reason(GrimmerOutcome::Passed)));
    assert_eq!(reason("2.40", "2.41", 5), Ok(GrimmerReturn::Reason(GrimmerOutcome::Passed)));
    assert_eq!(reason("4.00", "0.00", 10), Ok(GrimmerReturn::Reason(GrimmerOutcome::Passed)));
    let terse = grimmer_scalar(
        "5.21",
        "1.60",
        28,
        1,
        vec![false, false],
        vec!["up_or_down"],
        Decimal::from_int(5),
        Decimal::from_int(0),
    );
    assert_eq!(terse, Ok(GrimmerReturn::Bool(true)));
}

#[test]
fn grimmer_reports_the_failing_test() {
    assert_eq!(reason("5.19", "1.00", 40), Ok(GrimmerReturn::Reason(GrimmerOutcome::FailedGrim)));
    assert_eq!(reason("1.00", "0.20", 5), Ok(GrimmerReturn::Reason(GrimmerOutcome::FailedTest1)));
    assert_eq!(reason("4.00", "0.10", 10), Ok(GrimmerReturn::Reason(GrimmerOutcome::FailedTest1)));
    assert_eq!(reason("5.21", "1.61", 28), Ok(GrimmerReturn::Reason(GrimmerOutcome::FailedTest3)));
    assert_eq!(reason("1.00", "1.50", 5), Ok(GrimmerReturn::Reason(GrimmerOutcome::FailedTest3)));
    let terse = grimmer_scalar(
        "5.21",
        "1.61",
        28,
        1,
        vec![false, false],
        vec!["up_or_down"],
        Decimal::from_int(5),
        Decimal::from_int(0),
    );
    assert_eq!(terse, Ok(GrimmerReturn::Bool(false)));
}

#[test]
fn grimmer_errors() {
    let many_items = grimmer_scalar(
        "5.21",
        "1.60",
        28,
        2,
        vec![false, false],
        vec!["up_or_down"],
        Decimal::from_int(5),
        Decimal::from_int(0),
    );
    assert_eq!(many_items, Err(GrimmerError::UnsupportedItemsValue));
    assert_eq!(reason("x", "1.60", 28), Err(GrimmerError::Grim(GrimError::NotNumeric)));
    assert_eq!(reason("5.21", "sd", 28), Err(GrimmerError::NotNumeric));
    assert_eq!(reason("5.00", "1.00", 1), Err(GrimmerError::InvalidSampleSize));
    assert_eq!(reason("5.21", "1.6000001", 28), Err(GrimmerError::OutOfRange));
    let bad_threshold = grimmer_scalar(
        "5.21",
        "1.60",
        28,
        1,
        vec![false, false],
        vec!["up_from"],
        Decimal::new(45001, 4),
        Decimal::from_int(0),
    );
    assert_eq!(bad_threshold, Err(GrimmerError::UnsupportedThreshold));
    let above_ten = grimmer_scalar(
        "5.21",
        "1.60",
        28,
        1,
        vec![false, false],
        vec!["up_from"],
        Decimal::new(105, 1),
        Decimal::from_int(0),
    );
    assert_eq!(above_ten, Err(GrimmerError::UnsupportedThreshold));
}

#[test]
fn unround_bounds() {
    let b = unround("1.25", "up_or_down", Decimal::from_int(5)).unwrap();
    assert_eq!((b.lower, b.upper, b.incl_lower, b.incl_upper, b.scale), (1245, 1255, true, true, 3));
    let b = unround("1.25", "even", Decimal::from_int(5)).unwrap();
    assert_eq!((b.lower, b.upper, b.incl_lower, b.incl_upper), (1245, 1255, false, false));
    let b = unround("1.25", "up", Decimal::from_int(1)).unwrap();
    assert_eq!((b.lower, b.upper, b.incl_lower, b.incl_upper), (1249, 1251, true, false));
    let b = unround("-1.2", "trunc", Decimal::from_int(5)).unwrap();
    assert_eq!((b.lower, b.upper, b.incl_lower, b.incl_upper), (-130, -120, false, true));
    let b = unround("1.2", "ceiling", Decimal::from_int(5)).unwrap();
    assert_eq!((b.lower, b.upper, b.incl_lower, b.incl_upper), (110, 120, false, true));
    assert_eq!(unround("0.0", "anti_trunc", Decimal::from_int(5)), Err(RoudingBoundError::ZeroError));
    assert_eq!(unround("1.2", "up_from", Decimal::from_int(5)), Err(RoudingBoundError::RoundingError));
    assert_eq!(unround("1.2", "sideways", Decimal::from_int(5)), Err(RoudingBoundError::RoundingError));
    assert_eq!(unround("one", "up", Decimal::from_int(5)), Err(RoudingBoundError::NotNumeric));
}

#[test]
fn debit_verdicts() {
    assert_eq!(debit_scalar("0.50", "0.51", 50, "mean_n", "up_or_down"), Ok(true));
    assert_eq!(debit_scalar("0.50", "0.50", 50, "mean_n", "up_or_down"), Ok(false));
    assert_eq!(debit_scalar("0.10", "0.30", 100, "mean_n", "up"), Ok(true));
    assert_eq!(debit_scalar("0.10", "0.31", 100, "mean_n", "down"), Ok(false));
    assert_eq!(debit_scalar("0.35", "0.48", 20, "mean_n", "up_or_down"), Ok(false));
    assert_eq!(debit_scalar("0.35", "0.49", 20, "mean_n", "up_or_down"), Ok(true));
    assert_eq!(debit_scalar("0.50", "0.51", 50, "mean_n", "even"), Ok(true));
    assert_eq!(debit_scalar("0.5000001", "0.51", 50, "mean_n", "up"), Err(DebitError::OutOfRange));
}

#[test]
fn debit_table_shapes() {
    match debit_table("0.50", "0.51", 50, "mean_n", "up_or_down", true).unwrap() {
        DebitTables::DebitTableVerbose(t) => {
            assert!(t.consistency);
            assert_eq!(t.reconstructions, vec![51, 51, 51, 51]);
            // 0.51 and 0.50 widened by sqrt(eps) = 1.4901161193e-8 units of the place past
            // their last digit, at 21 places
            assert_eq!(
                (t.sd_bound.lower, t.sd_bound.upper, t.sd_bound.scale),
                (509_999_999_985_098_838_807, 510_000_000_014_901_161_193, 21)
            );
            assert_eq!(
                (t.x_bound.lower, t.x_bound.upper),
                (499_999_999_985_098_838_807, 500_000_000_014_901_161_193)
            );
            assert!(t.sd_bound.incl_lower && t.sd_bound.incl_upper);
        }
        DebitTables::DebitTable(_) => panic!("expected the bounds"),
    }
    match debit_table("0.50", "0.51", 50, "mean_n", "up_or_down", false).unwrap() {
        DebitTables::DebitTable(t) => {
            assert!(t.consistency);
            assert_eq!(t.n, 50);
            assert_eq!(t.sd, "0.51");
        }
        DebitTables::DebitTableVerbose(_) => panic!("expected the terse table"),
    }
    let t = DebitTable::new("0.5".to_string(), "0.3".to_string(), 12, false);
    assert_eq!((t.sd.as_str(), t.x.as_str(), t.n, t.consistency), ("0.5", "0.3", 12, false));
}

#[test]
fn debit_errors() {
    assert_eq!(debit_scalar("abc", "0.51", 50, "mean_n", "up"), Err(DebitError::NotNumeric));
    assert_eq!(debit_scalar("0.50", "0.51", 50, "mean_n", "sideways"), Err(DebitError::InvalidMode));
    assert_eq!(debit_scalar("0.50", "0.51", 50, "0_n", "up"), Err(DebitError::InvalidFormula));
    assert_eq!(debit_scalar("1.50", "0.51", 50, "mean_n", "up"), Err(DebitError::ProportionOutOfRange));
    assert_eq!(debit_scalar("0.50", "0.51", 1, "mean_n", "up"), Err(DebitError::InvalidSampleSize));
    assert_eq!(
        debit_scalar("0.50", "0.51", 50, "mean_n", "up_from"),
        Err(DebitError::Bound(RoudingBoundError::RoundingError))
    );
    assert_eq!(
        debit_scalar("0.0", "0.5", 50, "mean_n", "anti_trunc"),
        Err(DebitError::Bound(RoudingBoundError::ZeroError))
    );
}

#[test]
fn unround_bounds_hold_the_value() {
    // 1.25 at scale 3 is 1250
    for mode in ["up_or_down", "up", "down", "even", "ceiling", "floor", "trunc", "anti_trunc"] {
        let b = unround("1.25", mode, Decimal::from_int(5)).unwrap();
        assert!(b.lower <= 1250 && 1250 <= b.upper, "{mode}");
        let b = unround("-1.25", mode, Decimal::from_int(5)).unwrap();
        assert!(b.lower <= -1250 && -1250 <= b.upper, "{mode}");
    }
}

#[test]
fn grimmer_never_passes_where_grim_fails() {
    for sd in ["0.50", "1.00", "1.60", "2.41"] {
        let r = reason("5.19", sd, 40).unwrap();
        assert_eq!(r, GrimmerReturn::Reason(GrimmerOutcome::FailedGrim));
    }
}

#[test]
fn grimmer_takes_a_decimal_threshold() {
    let r = grimmer_scalar(
        "5.21",
        "1.60",
        28,
        1,
        vec![true, false],
        vec!["up_from"],
        Decimal::new(45, 1),
        Decimal::from_int(0),
    );
    assert!(matches!(r, Ok(GrimmerReturn::Reason(_))));
}
