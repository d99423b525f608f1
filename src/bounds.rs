use vstd::prelude::*;
use vstd::string::StringSliceAdditionalSpecFns;

use crate::decimal::{
    frac_len, is_literal, lemma_pow10_add, lemma_pow10_limits, lemma_pow10_mono, lemma_pow10_pos,
    literal_mantissa, parse_decimal, pow10, pow10_exec, Decimal,
};
use crate::grim::{is_mode_name, mode_of};
use crate::rounding::{mode_name, RoundingMode};

verus! {

#[derive(Clone, Copy, Debug, PartialEq, Eq, Structural)]
pub enum RoudingBoundError {
    /// `anti_trunc` has no bound for a reported zero.
    ZeroError,
    /// The rounding mode has no bound of its own.
    RoundingError,
    /// The reported value is not a decimal numeral.
    NotNumeric,
}

/// The interval of true values that a reported value can have come from: mantissas at
/// `scale`, each end included or not.
#[derive(Clone, Copy, Debug, PartialEq, Eq, Structural)]
pub struct UnroundReturn {
    pub lower: i128,
    pub incl_lower: bool,
    pub incl_upper: bool,
    pub upper: i128,
    pub scale: u32,
}

impl UnroundReturn {
    pub fn new(lower: i128, incl_lower: bool, incl_upper: bool, upper: i128, scale: u32) -> (r:
        UnroundReturn)
        ensures
            r == (UnroundReturn { lower, incl_lower, incl_upper, upper, scale }),
    {
        UnroundReturn { lower, incl_lower, incl_upper, upper, scale }
    }
}

/// The bound of a value `x` under `mode`, where `d` is half a unit at the position past
/// the reported precision and `d_var` the threshold's share of it: lower end, upper end,
/// and whether each is included.
pub open spec fn bounds_spec(mode: RoundingMode, x: int, d_var: int, d: int) -> Result<
    (int, int, bool, bool),
    RoudingBoundError,
> {
    match mode {
        RoundingMode::Trunc => if x > 0 {
            Ok((x, x + 2 * d, true, false))
        } else if x < 0 {
            Ok((x - 2 * d, x, false, true))
        } else {
            Ok((x - 2 * d, x + 2 * d, false, false))
        },
        RoundingMode::AntiTrunc => if x > 0 {
            Ok((x - 2 * d, x, true, false))
        } else if x < 0 {
            Ok((x, x + 2 * d, true, false))
        } else {
            Err(RoudingBoundError::ZeroError)
        },
        RoundingMode::UpOrDown => Ok((x - d_var, x + d_var, true, true)),
        RoundingMode::Up => Ok((x - d_var, x + d_var, true, false)),
        RoundingMode::Down => Ok((x - d_var, x + d_var, false, true)),
        RoundingMode::Even => Ok((x - d, x + d, false, false)),
        RoundingMode::Ceiling => Ok((x - 2 * d, x, false, true)),
        RoundingMode::Floor => Ok((x, x + 2 * d, true, false)),
        _ => Err(RoudingBoundError::RoundingError),
    }
}

/// Largest magnitude of a value that `rounding_bounds` takes.
pub const BOUND_LIMIT: i128 = 0x1000_0000_0000_0000_0000_0000_0000_0000;

/// The bound of `x` under `mode`, with `d` half a unit past the reported precision and
/// `d_var` the threshold's share of a unit, all at one scale.
pub fn rounding_bounds(mode: RoundingMode, x: i128, d_var: i128, d: i128) -> (r: Result<
    (i128, i128, bool, bool),
    RoudingBoundError,
>)
    requires
        -BOUND_LIMIT <= x <= BOUND_LIMIT,
        -BOUND_LIMIT <= d_var <= BOUND_LIMIT,
        0 <= d <= BOUND_LIMIT,
    ensures
        match bounds_spec(mode, x as int, d_var as int, d as int) {
            Err(e) => r == Err::<(i128, i128, bool, bool), RoudingBoundError>(e),
            Ok(b) => r is Ok && r->Ok_0.0 == b.0 && r->Ok_0.1 == b.1 && r->Ok_0.2 == b.2
                && r->Ok_0.3 == b.3,
        },
{
    match mode {
        RoundingMode::Trunc => if x > 0 {
            Ok((x, x + 2 * d, true, false))
        } else if x < 0 {
            Ok((x - 2 * d, x, false, true))
        } else {
            Ok((x - 2 * d, x + 2 * d, false, false))
        },
        RoundingMode::AntiTrunc => if x > 0 {
            Ok((x - 2 * d, x, true, false))
        } else if x < 0 {
            Ok((x, x + 2 * d, true, false))
        } else {
            Err(RoudingBoundError::ZeroError)
        },
        RoundingMode::UpOrDown => Ok((x - d_var, x + d_var, true, true)),
        RoundingMode::Up => Ok((x - d_var, x + d_var, true, false)),
        RoundingMode::Down => Ok((x - d_var, x + d_var, false, true)),
        RoundingMode::Even => Ok((x - d, x + d, false, false)),
        RoundingMode::Ceiling => Ok((x - 2 * d, x, false, true)),
        RoundingMode::Floor => Ok((x, x + 2 * d, true, false)),
        _ => Err(RoudingBoundError::RoundingError),
    }
}

/// Scale of a bound of the literal `s` with threshold `t`: one place past the literal's
/// own, and the threshold's places on top.
pub open spec fn unround_scale(s: Seq<u8>, t: Decimal) -> nat {
    (frac_len(s) + 1 + t.scale) as nat
}

/// What `unround` gives for the literal `s`: the value, half a unit and the threshold's
/// share of a unit, each at `unround_scale`, handed to `bounds_spec`.
pub open spec fn unround_spec(s: Seq<u8>, mode: RoundingMode, t: Decimal) -> Result<
    (int, int, bool, bool),
    RoudingBoundError,
> {
    bounds_spec(
        mode,
        literal_mantissa(s) * pow10((1 + t.scale) as nat),
        t.mantissa as int,
        5 * pow10(t.scale as nat),
    )
}

/// `10^k` for `k` up to 36, as an `i128`.
pub(crate) fn pow10_wide(k: u32) -> (r: i128)
    requires
        k <= 36,
    ensures
        r == pow10(k as nat),
{
    proof {
        lemma_pow10_limits();
    }
    if k <= 18 {
        pow10_exec(k) as i128
    } else {
        proof {
            lemma_pow10_add(18, (k - 18) as nat);
            lemma_pow10_mono((k - 18) as nat, 18);
            lemma_pow10_pos((k - 18) as nat);
            assert(pow10(18) * pow10((k - 18) as nat) <= 1_000_000_000_000_000_000
                * 1_000_000_000_000_000_000) by (nonlinear_arith)
                requires
                    pow10(18) == 1_000_000_000_000_000_000,
                    1 <= pow10((k - 18) as nat) <= 1_000_000_000_000_000_000,
            ;
            assert((18 + (k - 18)) as nat == k as nat);
        }
        (pow10_exec(18) as i128) * (pow10_exec(k - 18) as i128)
    }
}

/// The interval of true values behind the reported literal `x` under the rounding mode
/// named `rounding`; `threshold` sets the width for `up_or_down`, `up` and `down`. Ends are
/// mantissas at one place past the literal's precision plus the threshold's places. A
/// literal without decimal places is read as a whole number.
pub fn unround(x: &str, rounding: &str, threshold: Decimal) -> (r: Result<
    UnroundReturn,
    RoudingBoundError,
>)
    requires
        threshold.wf(),
    ensures
        !is_literal(x.spec_bytes()) ==> r == Err::<UnroundReturn, RoudingBoundError>(
            RoudingBoundError::NotNumeric,
        ),
        is_literal(x.spec_bytes()) && !is_mode_name(rounding@) ==> r == Err::<
            UnroundReturn,
            RoudingBoundError,
        >(RoudingBoundError::RoundingError),
        is_literal(x.spec_bytes()) && is_mode_name(rounding@) ==> match unround_spec(
            x.spec_bytes(),
            mode_of(rounding@),
            threshold,
        ) {
            Err(e) => r == Err::<UnroundReturn, RoudingBoundError>(e),
            Ok(b) => r is Ok && r->Ok_0.lower == b.0 && r->Ok_0.upper == b.1 && r->Ok_0.incl_lower
                == b.2 && r->Ok_0.incl_upper == b.3 && r->Ok_0.scale == unround_scale(
                x.spec_bytes(),
                threshold,
            ),
        },
{
    let lit = match parse_decimal(x) {
        Ok(l) => l,
        Err(_) => {
            return Err(RoudingBoundError::NotNumeric);
        },
    };
    let mode = match RoundingMode::from_name(rounding) {
        Ok(m) => m,
        Err(_) => {
            return Err(RoudingBoundError::RoundingError);
        },
    };
    proof {
        let c = mode_of(rounding@);
        assert(mode_name(c) == rounding@);
        crate::grim::lemma_mode_name_injective(c, mode);
        lemma_pow10_mono(threshold.scale as nat, 18);
        lemma_pow10_mono((1 + threshold.scale) as nat, 19);
        lemma_pow10_limits();
        lemma_pow10_pos(threshold.scale as nat);
        assert(pow10(19) == 10 * pow10(18));
    }
    let shift = pow10_wide(1 + threshold.scale);
    proof {
        assert(-1_000_000_000_000_000_000 * 10_000_000_000_000_000_000 <= lit.value.mantissa * shift
            <= 1_000_000_000_000_000_000 * 10_000_000_000_000_000_000) by (nonlinear_arith)
            requires
                -1_000_000_000_000_000_000 < lit.value.mantissa < 1_000_000_000_000_000_000,
                1 <= shift <= 10_000_000_000_000_000_000,
        ;
    }
    let xv: i128 = lit.value.mantissa as i128 * shift;
    let d: i128 = 5 * pow10_wide(threshold.scale);
    let b = match rounding_bounds(mode, xv, threshold.mantissa as i128, d) {
        Ok(b) => b,
        Err(e) => {
            return Err(e);
        },
    };
    Ok(UnroundReturn::new(b.0, b.2, b.3, b.1, lit.value.scale + 1 + threshold.scale))
}

/// A reported value lies within its own bound: for every mode that has a bound and every
/// threshold that is not negative, `lower <= x <= upper`.
pub proof fn lemma_unround_contains_value(s: Seq<u8>, mode: RoundingMode, t: Decimal)
    requires
        t.mantissa >= 0,
        unround_spec(s, mode, t) is Ok,
    ensures
        ({
            let b = unround_spec(s, mode, t)->Ok_0;
            let x = literal_mantissa(s) * pow10((1 + t.scale) as nat);
            b.0 <= x <= b.1
        }),
{
    lemma_pow10_pos(t.scale as nat);
}

} // verus!
