use vstd::prelude::*;
use vstd::string::StringSliceAdditionalSpecFns;

use crate::decimal::{
    frac_len, is_literal, lemma_pow10_limits, lemma_pow10_mono, lemma_pow10_pos, literal_mantissa,
    parse_decimal, pow10, pow10_exec, Ratio,
};
use crate::rounding::str_eq;

verus! {

#[derive(Clone, Copy, Debug, PartialEq, Eq, Structural)]
pub enum SdBinaryError {
    /// Fewer than two observations.
    TooFewObservations,
    /// A group holds more observations than the whole.
    CountExceedsTotal,
    /// A mean of binary data lies outside `[0, 1]`, or its denominator is too large.
    MeanOutOfRange,
    /// The mean is not a decimal numeral.
    NotNumeric,
    /// The formula is none of `mean_n`, `0_n`, `1_n`, `groups`.
    InvalidFormula,
}

/// Largest denominator of a mean that `sd_binary_mean_n` takes.
pub const MEAN_DENOM_LIMIT: i128 = 0x100_0000_0000;

/// Squared SD of binary data with `zeros` zeros and `ones` ones, with the sample
/// correction `n / (n - 1)`: `zeros ones / (n (n - 1))` where `n = zeros + ones`.
pub open spec fn groups_variance(zeros: int, ones: int) -> (int, int) {
    (zeros * ones, (zeros + ones) * (zeros + ones - 1))
}

/// `r` is what the group counts `zeros` and `ones` give: an error for a negative count
/// (a group larger than the whole) or fewer than two observations, else
/// `groups_variance`.
pub open spec fn counts_outcome(r: Result<Ratio, SdBinaryError>, zeros: int, ones: int) -> bool {
    if zeros < 0 || ones < 0 {
        r == Err::<Ratio, SdBinaryError>(SdBinaryError::CountExceedsTotal)
    } else if zeros + ones < 2 {
        r == Err::<Ratio, SdBinaryError>(SdBinaryError::TooFewObservations)
    } else {
        r is Ok && r->Ok_0.numer == groups_variance(zeros, ones).0 && r->Ok_0.denom
            == groups_variance(zeros, ones).1
    }
}

/// Squared SD of binary data with mean `a / b` over `n` values: `n a (b - a) / ((n - 1) b^2)`.
pub open spec fn mean_variance(a: int, b: int, n: int) -> (int, int) {
    (n * a * (b - a), (n - 1) * b * b)
}

/// The squared SD of binary data from its group counts, as an exact fraction; the SD is
/// its square root.
pub fn sd_binary_groups(zeros: u32, ones: u32) -> (r: Result<Ratio, SdBinaryError>)
    ensures
        counts_outcome(r, zeros as int, ones as int),
{
    let z = zeros as i128;
    let o = ones as i128;
    if z + o < 2 {
        return Err(SdBinaryError::TooFewObservations);
    }
    proof {
        assert(0 <= z * o <= 0xffff_ffff * 0xffff_ffff) by (nonlinear_arith)
            requires
                0 <= z <= 0xffff_ffff,
                0 <= o <= 0xffff_ffff,
        ;
        assert(0 <= (z + o) * (z + o - 1) <= 0x1_ffff_fffe * 0x1_ffff_fffe) by (nonlinear_arith)
            requires
                2 <= z + o <= 0x1_ffff_fffe,
        ;
    }
    Ok(Ratio { numer: z * o, denom: (z + o) * (z + o - 1) })
}

/// The squared SD of binary data from the count of zeros and the total.
pub fn sd_binary_0_n(zeros: u32, n: u32) -> (r: Result<Ratio, SdBinaryError>)
    ensures
        counts_outcome(r, zeros as int, n - zeros),
{
    if zeros > n {
        return Err(SdBinaryError::CountExceedsTotal);
    }
    sd_binary_groups(zeros, n - zeros)
}

/// The squared SD of binary data from the count of ones and the total.
pub fn sd_binary_1_n(ones: u32, n: u32) -> (r: Result<Ratio, SdBinaryError>)
    ensures
        counts_outcome(r, n - ones, ones as int),
{
    if ones > n {
        return Err(SdBinaryError::CountExceedsTotal);
    }
    sd_binary_groups(n - ones, ones)
}

/// The squared SD of binary data from its mean (the share of ones) and the total.
pub fn sd_binary_mean_n(mean: Ratio, n: u32) -> (r: Result<Ratio, SdBinaryError>)
    ensures
        !(0 < mean.denom <= MEAN_DENOM_LIMIT && 0 <= mean.numer <= mean.denom) ==> r == Err::<
            Ratio,
            SdBinaryError,
        >(SdBinaryError::MeanOutOfRange),
        0 < mean.denom <= MEAN_DENOM_LIMIT && 0 <= mean.numer <= mean.denom && n < 2 ==> r == Err::<
            Ratio,
            SdBinaryError,
        >(SdBinaryError::TooFewObservations),
        0 < mean.denom <= MEAN_DENOM_LIMIT && 0 <= mean.numer <= mean.denom && n >= 2 ==> r is Ok
            && r->Ok_0.numer == mean_variance(mean.numer as int, mean.denom as int, n as int).0
            && r->Ok_0.denom == mean_variance(mean.numer as int, mean.denom as int, n as int).1,
{
    let a = mean.numer;
    let b = mean.denom;
    if !(0 < b && b <= MEAN_DENOM_LIMIT && 0 <= a && a <= b) {
        return Err(SdBinaryError::MeanOutOfRange);
    }
    if n < 2 {
        return Err(SdBinaryError::TooFewObservations);
    }
    let nn = n as i128;
    proof {
        assert(0 <= a * (b - a) <= 0x100_0000_0000 * 0x100_0000_0000) by (nonlinear_arith)
            requires
                0 <= a <= b <= 0x100_0000_0000,
        ;
        assert(0 <= nn * a <= 0xffff_ffff * 0x100_0000_0000) by (nonlinear_arith)
            requires
                0 <= a <= 0x100_0000_0000,
                2 <= nn <= 0xffff_ffff,
        ;
        assert(0 <= nn * a * (b - a) <= 0xffff_ffff * 0x100_0000_0000 * 0x100_0000_0000) by (nonlinear_arith)
            requires
                0 <= a <= b <= 0x100_0000_0000,
                2 <= nn <= 0xffff_ffff,
        ;
        assert(0 <= (nn - 1) * b <= 0xffff_ffff * 0x100_0000_0000) by (nonlinear_arith)
            requires
                0 < b <= 0x100_0000_0000,
                2 <= nn <= 0xffff_ffff,
        ;
        assert(0 <= (nn - 1) * b * b <= 0xffff_ffff * 0x100_0000_0000 * 0x100_0000_0000) by (nonlinear_arith)
            requires
                0 < b <= 0x100_0000_0000,
                2 <= nn <= 0xffff_ffff,
        ;
    }
    Ok(Ratio { numer: nn * a * (b - a), denom: (nn - 1) * b * b })
}

/// The mean `x` as a fraction `mantissa / 10^places`, where that denominator is one
/// `sd_binary_mean_n` takes.
pub open spec fn mean_ratio(x: Seq<u8>) -> Ratio {
    Ratio { numer: literal_mantissa(x) as i128, denom: pow10(frac_len(x)) as i128 }
}

/// The squared SD of binary data by the named formula: `mean_n` from the mean `x` and
/// `n`, `0_n` from `zeros` and `n`, `1_n` from `ones` and `n`, `groups` from `zeros` and
/// `ones`.
pub fn reconstruct_sd_scalar(formula: &str, x: &str, n: u32, zeros: u32, ones: u32) -> (r: Result<
    Ratio,
    SdBinaryError,
>)
    ensures
        formula@ == "mean_n"@ ==> (!is_literal(x.spec_bytes()) ==> r == Err::<Ratio, SdBinaryError>(
            SdBinaryError::NotNumeric,
        )),
        formula@ == "mean_n"@ && is_literal(x.spec_bytes()) && frac_len(x.spec_bytes()) <= 12 ==> {
            let m = mean_ratio(x.spec_bytes());
            if !(0 <= m.numer <= m.denom) {
                r == Err::<Ratio, SdBinaryError>(SdBinaryError::MeanOutOfRange)
            } else if n < 2 {
                r == Err::<Ratio, SdBinaryError>(SdBinaryError::TooFewObservations)
            } else {
                r is Ok && r->Ok_0.numer == mean_variance(m.numer as int, m.denom as int, n as int).0
                    && r->Ok_0.denom == mean_variance(m.numer as int, m.denom as int, n as int).1
            }
        },
        formula@ == "mean_n"@ && is_literal(x.spec_bytes()) && frac_len(x.spec_bytes()) > 12 ==> r
            == Err::<Ratio, SdBinaryError>(SdBinaryError::MeanOutOfRange),
        formula@ == "0_n"@ ==> counts_outcome(r, zeros as int, n - zeros),
        formula@ == "1_n"@ ==> counts_outcome(r, n - ones, ones as int),
        formula@ == "groups"@ ==> counts_outcome(r, zeros as int, ones as int),
        formula@ != "mean_n"@ && formula@ != "0_n"@ && formula@ != "1_n"@ && formula@ != "groups"@
            ==> r == Err::<Ratio, SdBinaryError>(SdBinaryError::InvalidFormula),
{
    proof {
        reveal_strlit("mean_n");
        reveal_strlit("0_n");
        reveal_strlit("1_n");
        reveal_strlit("groups");
        assert("mean_n"@.len() != "0_n"@.len());
        assert("mean_n"@.len() != "1_n"@.len());
        assert("mean_n"@[0] != "groups"@[0]);
        assert("0_n"@.len() != "groups"@.len());
        assert("1_n"@.len() != "groups"@.len());
        assert("0_n"@[0] != "1_n"@[0]);
    }
    if str_eq(formula, "mean_n") {
        let lit = match parse_decimal(x) {
            Err(_) => {
                return Err(SdBinaryError::NotNumeric);
            },
            Ok(l) => l,
        };
        if lit.value.scale > 12 {
            return Err(SdBinaryError::MeanOutOfRange);
        }
        proof {
            lemma_pow10_mono(lit.value.scale as nat, 12);
            lemma_pow10_limits();
            lemma_pow10_mono(12, 17);
            lemma_pow10_pos(lit.value.scale as nat);
            reveal_with_fuel(pow10, 13);
        }
        let m = Ratio { numer: lit.value.mantissa as i128, denom: pow10_exec(lit.value.scale) as i128 };
        if !(0 <= m.numer && m.numer <= m.denom) {
            return Err(SdBinaryError::MeanOutOfRange);
        }
        sd_binary_mean_n(m, n)
    } else if str_eq(formula, "0_n") {
        sd_binary_0_n(zeros, n)
    } else if str_eq(formula, "1_n") {
        sd_binary_1_n(ones, n)
    } else if str_eq(formula, "groups") {
        sd_binary_groups(zeros, ones)
    } else {
        Err(SdBinaryError::InvalidFormula)
    }
}

} // verus!
