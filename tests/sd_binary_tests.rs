use scrutipy::decimal::Ratio;
use scrutipy::sd_binary::{
    reconstruct_sd_scalar, sd_binary_0_n, sd_binary_1_n, sd_binary_groups, sd_binary_mean_n,
    SdBinaryError,
};

fn pair(r: Ratio) -> (i128, i128) {
    (r.numer, r.denom)
}

#[test]
fn binary_sd_from_counts() {
    // 3 zeros and 2 ones: 6 / 20
    assert_eq!(sd_binary_groups(3, 2).map(pair), Ok((6, 20)));
    assert_eq!(sd_binary_0_n(3, 5).map(pair), Ok((6, 20)));
    assert_eq!(sd_binary_1_n(2, 5).map(pair), Ok((6, 20)));
    assert_eq!(sd_binary_groups(1, 0), Err(SdBinaryError::TooFewObservations));
    assert_eq!(sd_binary_0_n(6, 5), Err(SdBinaryError::CountExceedsTotal));
    assert_eq!(sd_binary_1_n(6, 5), Err(SdBinaryError::CountExceedsTotal));
    assert_eq!(sd_binary_0_n(1, 1), Err(SdBinaryError::TooFewObservations));
}

#[test]
fn binary_sd_from_mean() {
    // mean 0.4 over 5: 5 * 4 * 6 / (4 * 100) = 120 / 400, the same 0.3 as above
    let r = sd_binary_mean_n(Ratio { numer: 4, denom: 10 }, 5).unwrap();
    assert_eq!(pair(r), (120, 400));
    assert_eq!(
        sd_binary_mean_n(Ratio { numer: 11, denom: 10 }, 5),
        Err(SdBinaryError::MeanOutOfRange)
    );
    assert_eq!(
        sd_binary_mean_n(Ratio { numer: 4, denom: 10 }, 1),
        Err(SdBinaryError::TooFewObservations)
    );
}

#[test]
fn binary_sd_by_formula_name() {
    assert_eq!(reconstruct_sd_scalar("mean_n", "0.4", 5, 0, 0).map(pair), Ok((120, 400)));
    assert_eq!(reconstruct_sd_scalar("0_n", "", 5, 3, 0).map(pair), Ok((6, 20)));
    assert_eq!(reconstruct_sd_scalar("1_n", "", 5, 0, 2).map(pair), Ok((6, 20)));
    assert_eq!(reconstruct_sd_scalar("groups", "", 0, 3, 2).map(pair), Ok((6, 20)));
    assert_eq!(reconstruct_sd_scalar("mean_n", "x", 5, 0, 0), Err(SdBinaryError::NotNumeric));
    assert_eq!(reconstruct_sd_scalar("mean_n", "1.5", 5, 0, 0), Err(SdBinaryError::MeanOutOfRange));
    assert_eq!(reconstruct_sd_scalar("median", "0.4", 5, 0, 0), Err(SdBinaryError::InvalidFormula));
}
