use scrutipy::decimal::{decimal_places_scalar, parse_decimal, Decimal, DecimalError, Ratio};
use scrutipy::rounding::{
    check_rounding_singular, reround, round_rule, RoundingError, RoundingMode, Rule,
};

#[test]
fn decimal_places_test_1() {
    assert_eq!(decimal_places_scalar(Some("9.846"), "."), Some(3));
}

#[test]
fn decimal_places_test_2() {
    assert_eq!(decimal_places_scalar(Some(".9678"), "."), Some(4));
}

#[test]
fn decimal_places_test_3() {
    assert_eq!(decimal_places_scalar(Some("1."), "."), None);
}

#[test]
fn decimal_places_test_4() {
    assert_eq!(decimal_places_scalar(Some("0"), "."), None);
}

#[test]
fn decimal_places_test_5() {
    assert_eq!(decimal_places_scalar(Some("1.52.0"), "."), Some(2));
}

#[test]
fn decimal_places_test_6() {
    assert_eq!(decimal_places_scalar(Some("Not a Number"), "."), None);
}

#[test]
fn decimal_places_of_nothing_and_other_separators() {
    assert_eq!(decimal_places_scalar(None, "."), None);
    assert_eq!(decimal_places_scalar(Some("12,345"), ","), Some(3));
    assert_eq!(decimal_places_scalar(Some("12.5"), "."), Some(1));
}

#[test]
fn parse_keeps_trailing_zeros() {
    let a = parse_decimal("5.0").unwrap();
    let b = parse_decimal("5.00").unwrap();
    assert_eq!((a.value.mantissa, a.value.scale, a.digits), (50, 1, Some(1)));
    assert_eq!((b.value.mantissa, b.value.scale, b.digits), (500, 2, Some(2)));
    let c = parse_decimal("-0.25").unwrap();
    assert_eq!((c.value.mantissa, c.value.scale), (-25, 2));
    let d = parse_decimal("7").unwrap();
    assert_eq!((d.value.mantissa, d.value.scale, d.digits), (7, 0, None));
    let e = parse_decimal("1.").unwrap();
    assert_eq!((e.value.mantissa, e.value.scale, e.digits), (1, 0, None));
}

#[test]
fn parse_refuses_malformed_literals() {
    assert_eq!(parse_decimal("abc"), Err(DecimalError::NotNumeric));
    assert_eq!(parse_decimal(" 5.1"), Err(DecimalError::NotNumeric));
    assert_eq!(parse_decimal("1.52.0"), Err(DecimalError::NotNumeric));
    assert_eq!(parse_decimal(""), Err(DecimalError::NotNumeric));
    assert_eq!(parse_decimal("-"), Err(DecimalError::NotNumeric));
    assert_eq!(parse_decimal("1234567890.1234567890"), Err(DecimalError::NotNumeric));
}

#[test]
pub fn round_down_from_test_1() {
    // 65.3488492 and 645.76543 at 4 places, threshold 5
    let t = Decimal::from_int(5);
    assert_eq!(round_rule(Rule::DownFrom, 653488492, 1000, t, false), 653488);
    assert_eq!(round_rule(Rule::DownFrom, 64576543, 10, t, false), 6457654);
}

#[test]
pub fn round_down_from_test_2() {
    let t = Decimal::from_int(5);
    assert_eq!(round_rule(Rule::DownFrom, 6534845, 10, t, false), 653484);
    assert_eq!(round_rule(Rule::DownFrom, 64576543, 10, t, false), 6457654);
}

#[test]
pub fn round_down_from_scalar_test_1() {
    let t = Decimal::from_int(5);
    assert_eq!(round_rule(Rule::DownFrom, 653488492, 1000, t, false), 653488);
}

#[test]
pub fn round_down_from_scalar_test_2() {
    // a threshold a little above 5
    let t = Decimal::new(500000001, 8);
    assert_eq!(round_rule(Rule::DownFrom, 6534845, 10, t, false), 653484);
}

#[test]
fn rust_round_test_1() {
    // 98.7823987 at 4 places
    assert_eq!(round_rule(Rule::HalfUp, 987823987, 1000, Decimal::from_int(5), false), 987824);
}

#[test]
fn single_rules_on_ties_and_signs() {
    let t = Decimal::from_int(5);
    // 2.5 and -2.5
    assert_eq!(round_rule(Rule::HalfUp, 5, 2, t, false), 3);
    assert_eq!(round_rule(Rule::HalfDown, 5, 2, t, false), 2);
    assert_eq!(round_rule(Rule::HalfEven, 5, 2, t, false), 2);
    assert_eq!(round_rule(Rule::HalfEven, 7, 2, t, false), 4);
    assert_eq!(round_rule(Rule::HalfUp, -5, 2, t, false), -2);
    assert_eq!(round_rule(Rule::HalfDown, -5, 2, t, false), -3);
    // 2.3 and -2.3
    assert_eq!(round_rule(Rule::Ceiling, 23, 10, t, false), 3);
    assert_eq!(round_rule(Rule::Floor, 23, 10, t, false), 2);
    assert_eq!(round_rule(Rule::Trunc, -23, 10, t, false), -2);
    assert_eq!(round_rule(Rule::Floor, -23, 10, t, false), -3);
    assert_eq!(round_rule(Rule::AntiTrunc, 23, 10, t, false), 3);
    assert_eq!(round_rule(Rule::AntiTrunc, -23, 10, t, false), -3);
    assert_eq!(round_rule(Rule::AntiTrunc, 2, 1, t, false), 3);
    // rounding from 4: 2.4 goes up, 2.3 goes down
    let four = Decimal::from_int(4);
    assert_eq!(round_rule(Rule::UpFrom, 24, 10, four, false), 3);
    assert_eq!(round_rule(Rule::UpFrom, 23, 10, four, false), 2);
    assert_eq!(round_rule(Rule::DownFrom, 24, 10, four, false), 2);
    assert_eq!(round_rule(Rule::DownFrom, 25, 10, four, false), 3);
    // symmetric: -2.4 mirrors 2.4
    assert_eq!(round_rule(Rule::UpFrom, -24, 10, four, true), -3);
    assert_eq!(round_rule(Rule::UpFrom, -24, 10, four, false), -2);
}

#[test]
fn mode_names() {
    assert_eq!(RoundingMode::from_name("up_or_down"), Ok(RoundingMode::UpOrDown));
    assert_eq!(RoundingMode::from_name("ceiling_or_floor"), Ok(RoundingMode::CeilingOrFloor));
    assert_eq!(RoundingMode::from_name("anti_trunc"), Ok(RoundingMode::AntiTrunc));
    assert_eq!(RoundingMode::from_name("cieling"), Err(RoundingError::InvalidMode));
}

#[test]
fn reround_paired_and_single() {
    let t = Decimal::from_int(5);
    // 5.175 at 2 places
    let x = Ratio { numer: 207, denom: 40 };
    assert_eq!(reround(x, 2, RoundingMode::UpOrDown, t, false), Ok(vec![518, 517]));
    assert_eq!(reround(x, 2, RoundingMode::Even, t, false), Ok(vec![518]));
    assert_eq!(reround(x, 2, RoundingMode::CeilingOrFloor, t, false), Ok(vec![518, 517]));
    assert_eq!(
        reround(x, 2, RoundingMode::UpFrom, t, false),
        Err(RoundingError::ThresholdNotSpecified)
    );
    assert_eq!(
        reround(x, 2, RoundingMode::UpFromOrDownFrom, Decimal::from_int(4), false),
        Ok(vec![518, 518])
    );
    // 5.174 at 2 places, rounding from 4: up gives 5.18, down gives 5.17
    let y = Ratio { numer: 5174, denom: 1000 };
    assert_eq!(
        reround(y, 2, RoundingMode::UpFromOrDownFrom, Decimal::from_int(4), false),
        Ok(vec![518, 517])
    );
}

#[test]
fn reround_even_gives_back_exact_values() {
    // 3.14 already has two places
    let x = Ratio { numer: 314, denom: 100 };
    assert_eq!(reround(x, 2, RoundingMode::Even, Decimal::from_int(5), false), Ok(vec![314]));
}

#[test]
fn check_rounding_singular_finds_paired_mode() {
    assert_eq!(
        check_rounding_singular(vec!["up", "down"], "up_or_down", "up", "down"),
        Ok(())
    );
    assert_eq!(
        check_rounding_singular(vec!["up", "up_or_down"], "up_or_down", "up", "down"),
        Err("If rounding has length > 1, only single rounding procedures are supported, such as up and down. Instead, rounding was given as up_or_down plus others. You can still concatenate multiple of them; just leave out those with or.".to_string())
    );
}

#[test]
pub fn round_down_from_test_3() {
    // 1991.077, 2099.563, ... at 3 places, rounded down from 5 to 2 places
    let xs: Vec<i128> = vec![
        1991077, 2099563, 1986102, 1925769, 2015759, 1972437, 1973526, 2066728, 1947636, 1920659,
    ];
    let t = Decimal::from_int(5);
    let rounded_xs: Vec<i128> = xs.iter().map(|x| round_rule(Rule::DownFrom, *x, 10, t, false)).collect();
    // the decimal parts, at 2 and at 3 places
    let ts: Vec<i128> = rounded_xs.iter().map(|x| x % 100).collect();
    let xs_truncated: Vec<i128> = xs.iter().map(|x| x % 1000).collect();
    let rts_truncated: Vec<i128> = ts.iter().map(|x| round_rule(Rule::DownFrom, *x, 1, t, false)).collect();
    let rts: Vec<i128> = xs_truncated.iter().map(|x| round_rule(Rule::DownFrom, *x, 10, t, false)).collect();
    assert_eq!(rts, rts_truncated);
}
