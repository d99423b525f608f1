use vstd::prelude::*;
use vstd::string::StringSliceAdditionalSpecFns;

use crate::decimal::{
    frac_len, is_literal, lemma_pow10_limits, lemma_pow10_mono, lemma_pow10_pos, literal_mantissa,
    parse_decimal, pow10, pow10_exec, Decimal, MAX_LITERAL_DIGITS,
};
use crate::rounding::{
    ceil_div, check_modes, div_ceil, div_floor, floor_div, is_default_threshold,
    is_default_threshold_exec, is_paired, mode_name, reround_scaled, reround_scaled_spec,
    spread_ok, uses_threshold, RoundingError, RoundingMode, DENOM_LIMIT, NUMER_LIMIT,
    WIDE_DENOM_LIMIT,
};

verus! {

#[derive(Clone, Copy, Debug, PartialEq, Eq, Structural)]
pub enum GrimError {
    /// The reported value is not a decimal numeral.
    NotNumeric,
    /// A rounding name is none of the modes.
    InvalidMode,
    /// A paired rounding mode was given together with other modes.
    MixedModes,
    /// A mode that rounds from a threshold was used with the default threshold 5.
    ThresholdNotSpecified,
    /// `n * items` is zero or beyond the arithmetic's limit.
    InvalidSampleSize,
    /// Parallel inputs of a batch differ in length.
    LengthMismatch,
    /// The value has too many decimal places, or is too large, to be checked exactly.
    OutOfRange,
}

/// What a GRIM check computed: the whole sums around `x * n * items`, and every mantissa
/// that the means of those sums round to at the reported precision.
#[derive(Clone, Debug)]
pub struct GrimReconstruction {
    pub consistent: bool,
    pub sum_lower: i128,
    pub sum_upper: i128,
    pub grains: Vec<i128>,
}

/// The verdict of a GRIM check, with what it computed where that was asked for.
#[derive(Clone, Debug)]
pub enum GrimReturn {
    Bool(bool),
    List(bool, GrimReconstruction),
}

impl GrimReturn {
    pub open spec fn verdict(self) -> bool {
        match self {
            GrimReturn::Bool(b) => b,
            GrimReturn::List(b, _) => b,
        }
    }

    /// The verdict, whichever shape the result has.
    pub fn consistent(&self) -> (r: bool)
        ensures
            r == self.verdict(),
    {
        match self {
            GrimReturn::Bool(b) => *b,
            GrimReturn::List(b, _) => *b,
        }
    }
}

pub open spec fn abs(v: int) -> int {
    if v < 0 {
        -v
    } else {
        v
    }
}

/// Two mantissas at one scale lie within `tolerance` units of each other.
pub fn is_near(num_1: i128, num_2: i128, tolerance: i128) -> (r: bool)
    requires
        -NUMER_LIMIT <= num_1 <= NUMER_LIMIT,
        -NUMER_LIMIT <= num_2 <= NUMER_LIMIT,
    ensures
        r == (abs(num_1 - num_2) <= tolerance),
{
    let diff = if num_1 >= num_2 {
        num_1 - num_2
    } else {
        num_2 - num_1
    };
    diff <= tolerance
}

/// The mantissa `q` at `d` places lies within `tol` of the mantissa `m` at `d` places.
pub open spec fn near(q: int, m: int, d: nat, tol: Decimal) -> bool {
    abs(q - m) * pow10(tol.scale as nat) <= tol.mantissa * pow10(d)
}

/// Places of the widening of a reconstructed mean: it is moved by `10^-12` each way.
pub open spec fn dust_places() -> nat {
    12
}

/// Denominator of a widened mean over `nn` values, scaled to `d` places:
/// `nn 10^(12 - d)`.
pub open spec fn dust_den(nn: int, d: nat) -> int {
    nn * pow10((dust_places() - d) as nat)
}

/// Numerator over `dust_den` of the mean `s / nn` moved by `sign 10^-12`, scaled to `d`
/// places: `(s / nn + sign 10^-12) 10^d = (s 10^12 + sign nn) / (nn 10^(12 - d))`.
pub open spec fn dusted(s: int, nn: int, sign: int) -> int {
    s * pow10(dust_places()) + sign * nn
}

/// The mantissas at `d` places that `mode` gives for the mean `s / nn`, widened by
/// `10^-12` below and above: first those of the lower point, then those of the upper.
pub open spec fn dust_grains(
    s: int,
    nn: int,
    d: nat,
    mode: RoundingMode,
    t: Decimal,
    symmetric: bool,
) -> Seq<int> {
    reround_scaled_spec(dusted(s, nn, -1), dust_den(nn, d), mode, t, symmetric)
        + reround_scaled_spec(dusted(s, nn, 1), dust_den(nn, d), mode, t, symmetric)
}

/// The mantissas that the means of the whole sums next to `m / 10^d * nn` round to under
/// `mode`, each mean first widened by `10^-12` both ways: first those of the upper sum,
/// then those of the lower sum.
pub open spec fn mode_grains(
    m: int,
    d: nat,
    nn: int,
    mode: RoundingMode,
    t: Decimal,
    symmetric: bool,
) -> Seq<int> {
    dust_grains(ceil_div(m * nn, pow10(d)), nn, d, mode, t, symmetric) + dust_grains(
        floor_div(m * nn, pow10(d)),
        nn,
        d,
        mode,
        t,
        symmetric,
    )
}

/// The mantissas of `mode_grains` for every mode in turn.
pub open spec fn grains(
    m: int,
    d: nat,
    nn: int,
    modes: Seq<RoundingMode>,
    t: Decimal,
    symmetric: bool,
) -> Seq<int>
    decreases modes.len(),
{
    if modes.len() == 0 {
        Seq::empty()
    } else {
        grains(m, d, nn, modes.drop_last(), t, symmetric) + mode_grains(
            m,
            d,
            nn,
            modes.last(),
            t,
            symmetric,
        )
    }
}

/// A mean of `m / 10^d` over `nn` whole values is consistent: some whole sum gives a mean
/// that rounds, under one of the modes, to within `tol` of the reported mean.
pub open spec fn grim_consistent(
    m: int,
    d: nat,
    nn: int,
    modes: Seq<RoundingMode>,
    t: Decimal,
    symmetric: bool,
    tol: Decimal,
) -> bool {
    exists|i: int|
        0 <= i < grains(m, d, nn, modes, t, symmetric).len() && near(
            #[trigger] grains(m, d, nn, modes, t, symmetric)[i],
            m,
            d,
            tol,
        )
}

pub open spec fn modes_mixed(modes: Seq<RoundingMode>) -> bool {
    modes.len() > 1 && exists|i: int| 0 <= i < modes.len() && is_paired(#[trigger] modes[i])
}

pub open spec fn threshold_missing(modes: Seq<RoundingMode>, t: Decimal) -> bool {
    exists|i: int|
        0 <= i < modes.len() && uses_threshold(#[trigger] modes[i]) && is_default_threshold(t)
}

/// The sample size is one the arithmetic can carry.
pub open spec fn sample_size_ok(nn: int) -> bool {
    0 < nn <= DENOM_LIMIT
}

/// The mean and its precision are ones the arithmetic can carry: at most 12 places, and
/// widened sums within `NUMER_LIMIT`.
pub open spec fn magnitude_ok(m: int, d: nat, nn: int) -> bool {
    d <= dust_places() && (abs(m * nn) + pow10(d)) * pow10((dust_places() - d) as nat) + nn
        <= NUMER_LIMIT
}

/// Where a mode rounds from the threshold, the threshold fits the widened denominator.
pub open spec fn threshold_fits(modes: Seq<RoundingMode>, t: Decimal, nn: int, d: nat) -> bool {
    (exists|i: int| 0 <= i < modes.len() && uses_threshold(#[trigger] modes[i])) ==> spread_ok(
        dust_den(nn, d),
        t,
    )
}

/// What a GRIM check on plain values gives: the first error that applies, else the verdict.
pub open spec fn grim_outcome(
    m: int,
    d: nat,
    nn: int,
    modes: Seq<RoundingMode>,
    t: Decimal,
    symmetric: bool,
    tol: Decimal,
) -> Result<bool, GrimError> {
    if modes_mixed(modes) {
        Err(GrimError::MixedModes)
    } else if !sample_size_ok(nn) {
        Err(GrimError::InvalidSampleSize)
    } else if !magnitude_ok(m, d, nn) {
        Err(GrimError::OutOfRange)
    } else if threshold_missing(modes, t) {
        Err(GrimError::ThresholdNotSpecified)
    } else if !threshold_fits(modes, t, nn, d) {
        Err(GrimError::OutOfRange)
    } else {
        Ok(grim_consistent(m, d, nn, modes, t, symmetric, tol))
    }
}

/// Every name in `names` is the name of a rounding mode.
pub open spec fn names_ok(names: Seq<&str>) -> bool {
    forall|i: int| 0 <= i < names.len() ==> is_mode_name((#[trigger] names[i])@)
}

/// The mode of a name.
pub open spec fn mode_of(s: Seq<char>) -> RoundingMode {
    choose|m: RoundingMode| mode_name(m) == s
}

/// The modes of the names, in order.
pub open spec fn modes_of(names: Seq<&str>) -> Seq<RoundingMode> {
    names.map_values(|s: &str| mode_of(s@))
}

/// Decimal places that a GRIM check of the literal `s` works at.
pub open spec fn grim_places(s: Seq<u8>, percent: bool) -> nat {
    if percent {
        frac_len(s) + 2
    } else {
        frac_len(s)
    }
}

/// What a GRIM check of the literal `s` over `n * items` values gives.
pub open spec fn grim_scalar_outcome(
    s: Seq<u8>,
    n: u32,
    items: u32,
    percent: bool,
    names: Seq<&str>,
    t: Decimal,
    symmetric: bool,
    tol: Decimal,
) -> Result<bool, GrimError> {
    if !is_literal(s) {
        Err(GrimError::NotNumeric)
    } else if !names_ok(names) {
        Err(GrimError::InvalidMode)
    } else {
        grim_outcome(
            literal_mantissa(s),
            grim_places(s, percent),
            n * items,
            modes_of(names),
            t,
            symmetric,
            tol,
        )
    }
}

/// No two modes share a name.
pub proof fn lemma_mode_name_injective(a: RoundingMode, b: RoundingMode)
    ensures
        mode_name(a) == mode_name(b) ==> a == b,
{
    reveal_strlit("up_or_down");
    reveal_strlit("up");
    reveal_strlit("down");
    reveal_strlit("up_from");
    reveal_strlit("down_from");
    reveal_strlit("up_from_or_down_from");
    reveal_strlit("ceiling");
    reveal_strlit("floor");
    reveal_strlit("ceiling_or_floor");
    reveal_strlit("even");
    reveal_strlit("trunc");
    reveal_strlit("anti_trunc");
    if mode_name(a) == mode_name(b) {
        assert(mode_name(a).len() == mode_name(b).len());
        assert(mode_name(a)[0] == mode_name(b)[0]);
        assert(mode_name(a)[mode_name(a).len() - 1] == mode_name(b)[mode_name(b).len() - 1]);
    }
}

proof fn lemma_floor_le(k: int, x: int, p: int)
    requires
        p > 0,
        k >= 0,
    ensures
        (k * p <= x) == (k <= floor_div(x, p)),
{
    let f = x / p;
    vstd::arithmetic::div_mod::lemma_fundamental_div_mod(x, p);
    vstd::arithmetic::div_mod::lemma_mod_bound(x, p);
    assert((k * p <= x) == (k <= f)) by (nonlinear_arith)
        requires
            p > 0,
            x == p * f + x % p,
            0 <= x % p < p,
    ;
}

/// `q` lies within `tol` of `m` at `d` places, computed.
fn near_exec(q: i128, m: i64, d: u32, tol: Decimal) -> (r: bool)
    requires
        -2 * NUMER_LIMIT <= q <= 2 * NUMER_LIMIT,
        d <= MAX_LITERAL_DIGITS,
        tol.wf(),
    ensures
        r == near(q as int, m as int, d as nat, tol),
{
    proof {
        lemma_pow10_mono(d as nat, 18);
        lemma_pow10_mono(tol.scale as nat, 18);
        lemma_pow10_limits();
        lemma_pow10_pos(d as nat);
        lemma_pow10_pos(tol.scale as nat);
    }
    let diff: i128 = if q >= m as i128 {
        q - m as i128
    } else {
        m as i128 - q
    };
    let p_tol = pow10_exec(tol.scale) as i128;
    let p_d = pow10_exec(d) as i128;
    proof {
        assert(-0x8000_0000_0000_0000 * 1_000_000_000_000_000_000 <= tol.mantissa * p_d
            <= 0x8000_0000_0000_0000 * 1_000_000_000_000_000_000) by (nonlinear_arith)
            requires
                -0x8000_0000_0000_0000 <= tol.mantissa < 0x8000_0000_0000_0000,
                1 <= p_d <= 1_000_000_000_000_000_000,
        ;
    }
    let x: i128 = tol.mantissa as i128 * p_d;
    if x < 0 {
        proof {
            assert(diff * p_tol >= 0) by (nonlinear_arith)
                requires
                    diff >= 0,
                    p_tol >= 1,
            ;
        }
        return false;
    }
    let allowed = x / p_tol;
    proof {
        lemma_floor_le(diff as int, x as int, p_tol as int);
    }
    diff <= allowed
}

/// `s` is the name of a rounding mode.
pub open spec fn is_mode_name(s: Seq<char>) -> bool {
    exists|m: RoundingMode| mode_name(m) == s
}

/// Reads the rounding names, in order.
pub fn parse_modes(names: &Vec<&str>) -> (r: Result<Vec<RoundingMode>, RoundingError>)
    ensures
        r is Ok <==> forall|i: int| 0 <= i < names@.len() ==> is_mode_name((#[trigger] names@[i])@),
        r is Ok ==> r->Ok_0@ == modes_of(names@),
        r is Err ==> r->Err_0 == RoundingError::InvalidMode,
{
    let mut out: Vec<RoundingMode> = Vec::new();
    let mut i: usize = 0;
    while i < names.len()
        invariant
            i <= names@.len(),
            out@.len() == i,
            forall|k: int| 0 <= k < i ==> mode_name(#[trigger] out@[k]) == names@[k]@,
        decreases names@.len() - i,
    {
        match RoundingMode::from_name(names[i]) {
            Ok(m) => {
                out.push(m);
            },
            Err(e) => {
                assert(!is_mode_name(names@[i as int]@));
                return Err(e);
            },
        }
        i = i + 1;
    }
    proof {
        assert forall|k: int| 0 <= k < names@.len() implies is_mode_name((#[trigger] names@[k])@) by {
            assert(mode_name(out@[k]) == names@[k]@);
        }
        assert forall|k: int| 0 <= k < names@.len() implies out@[k] == modes_of(names@)[k] by {
            let c = mode_of(names@[k]@);
            assert(mode_name(out@[k]) == names@[k]@);
            assert(mode_name(c) == names@[k]@);
            lemma_mode_name_injective(c, out@[k]);
        }
        assert(out@ =~= modes_of(names@));
    }
    Ok(out)
}

/// The spread of the threshold over `den` fits, computed.
fn spread_fits(den: i128, t: Decimal) -> (r: bool)
    requires
        0 < den,
        t.wf(),
    ensures
        r == spread_ok(den as int, t),
{
    proof {
        lemma_pow10_mono(t.scale as nat, 18);
        lemma_pow10_limits();
        lemma_pow10_pos(t.scale as nat);
    }
    let tm = t.mantissa as i128;
    let at: i128 = if tm < 0 {
        -tm
    } else {
        tm
    };
    let w: i128 = 2 * (10 * (pow10_exec(t.scale) as i128)) + at;
    match den.checked_mul(w) {
        None => {
            proof {
                assert(den * w > crate::rounding::SPREAD_LIMIT);
            }
            false
        },
        Some(v) => v <= crate::rounding::SPREAD_LIMIT,
    }
}

/// Rounds the widened point `a / den` under `mode`, where the threshold is not the default
/// and fits where it is used.
fn widen_round(a: i128, den: i128, mode: RoundingMode, t: Decimal, symmetric: bool) -> (r: Vec<i128>)
    requires
        -NUMER_LIMIT <= a <= NUMER_LIMIT,
        0 < den <= WIDE_DENOM_LIMIT,
        t.wf(),
        uses_threshold(mode) ==> spread_ok(den as int, t) && !is_default_threshold(t),
    ensures
        r@.len() == reround_scaled_spec(a as int, den as int, mode, t, symmetric).len(),
        forall|i: int|
            0 <= i < r@.len() ==> r@[i] == reround_scaled_spec(a as int, den as int, mode, t, symmetric)[i],
        forall|i: int| 0 <= i < r@.len() ==> -2 * NUMER_LIMIT <= #[trigger] r@[i] <= 2 * NUMER_LIMIT,
{
    match reround_scaled(a, den, mode, t, symmetric) {
        Ok(v) => v,
        Err(_) => Vec::new(),
    }
}

/// The mantissas of the four widened points, upper sum first, computed.
fn mode_grains_exec(
    lo12: i128,
    hi12: i128,
    nd: i128,
    den: i128,
    mode: RoundingMode,
    t: Decimal,
    symmetric: bool,
) -> (r: Vec<i128>)
    requires
        0 < nd,
        -NUMER_LIMIT <= lo12 - nd && lo12 + nd <= NUMER_LIMIT,
        -NUMER_LIMIT <= hi12 - nd && hi12 + nd <= NUMER_LIMIT,
        0 < den <= WIDE_DENOM_LIMIT,
        t.wf(),
        uses_threshold(mode) ==> spread_ok(den as int, t) && !is_default_threshold(t),
    ensures
        ({
            let want = reround_scaled_spec(hi12 - nd, den as int, mode, t, symmetric)
                + reround_scaled_spec(hi12 + nd, den as int, mode, t, symmetric)
                + (reround_scaled_spec(lo12 - nd, den as int, mode, t, symmetric)
                + reround_scaled_spec(lo12 + nd, den as int, mode, t, symmetric));
            &&& r@.len() == want.len()
            &&& forall|i: int| 0 <= i < r@.len() ==> r@[i] == want[i]
            &&& forall|i: int| 0 <= i < r@.len() ==> -2 * NUMER_LIMIT <= #[trigger] r@[i] <= 2 * NUMER_LIMIT
        }),
{
    let mut out = widen_round(hi12 - nd, den, mode, t, symmetric);
    let mut a2 = widen_round(hi12 + nd, den, mode, t, symmetric);
    let mut a3 = widen_round(lo12 - nd, den, mode, t, symmetric);
    let mut a4 = widen_round(lo12 + nd, den, mode, t, symmetric);
    let ghost s1 = out@;
    let ghost s2 = a2@;
    let ghost s3 = a3@;
    let ghost s4 = a4@;
    out.append(&mut a2);
    out.append(&mut a3);
    out.append(&mut a4);
    proof {
        let want = reround_scaled_spec(hi12 - nd, den as int, mode, t, symmetric)
            + reround_scaled_spec(hi12 + nd, den as int, mode, t, symmetric)
            + (reround_scaled_spec(lo12 - nd, den as int, mode, t, symmetric)
            + reround_scaled_spec(lo12 + nd, den as int, mode, t, symmetric));
        assert(out@ == s1 + s2 + s3 + s4);
        assert forall|i: int| 0 <= i < out@.len() implies out@[i] == want[i] by {
            let l1 = s1.len() as int;
            let l2 = s2.len() as int;
            let l3 = s3.len() as int;
            if i < l1 {
            } else if i < l1 + l2 {
                assert(out@[i] == s2[i - l1]);
            } else if i < l1 + l2 + l3 {
                assert(out@[i] == s3[i - l1 - l2]);
            } else {
                assert(out@[i] == s4[i - l1 - l2 - l3]);
            }
        }
        assert forall|i: int| 0 <= i < out@.len() implies -2 * NUMER_LIMIT <= #[trigger] out@[i] <= 2 * NUMER_LIMIT by {
            let l1 = s1.len() as int;
            let l2 = s2.len() as int;
            let l3 = s3.len() as int;
            if i < l1 {
                assert(out@[i] == s1[i]);
            } else if i < l1 + l2 {
                assert(out@[i] == s2[i - l1]);
            } else if i < l1 + l2 + l3 {
                assert(out@[i] == s3[i - l1 - l2]);
            } else {
                assert(out@[i] == s4[i - l1 - l2 - l3]);
            }
        }
    }
    out
}

/// The GRIM test on plain values: whether a mean of `m / 10^d`, reported at `d` places,
/// can come from a whole sum over `nn` values, under any of `modes`. Every mantissa that
/// was compared is handed back. The means of the two whole sums next to `m / 10^d * nn`
/// are each widened by exactly `10^-12` in both directions before they are rounded, so a
/// mean that lies on a tie or on the grid of the reported precision also gives the
/// neighbouring mantissa: "0.13" over 25 under `ceiling` is consistent, since
/// 3/25 + 10^-12 rounds up to 0.13. The reported precision is at most 12 places.
pub fn grim_check(
    m: i64,
    d: u32,
    nn: u64,
    modes: &Vec<RoundingMode>,
    threshold: Decimal,
    symmetric: bool,
    tolerance: Decimal,
) -> (r: Result<GrimReconstruction, GrimError>)
    requires
        threshold.wf(),
        tolerance.wf(),
    ensures
        match grim_outcome(m as int, d as nat, nn as int, modes@, threshold, symmetric, tolerance) {
            Err(e) => r == Err::<GrimReconstruction, GrimError>(e),
            Ok(b) => r is Ok && {
                let rec = r->Ok_0;
                let g = grains(m as int, d as nat, nn as int, modes@, threshold, symmetric);
                &&& rec.consistent == b
                &&& rec.sum_lower == floor_div(m * nn, pow10(d as nat))
                &&& rec.sum_upper == ceil_div(m * nn, pow10(d as nat))
                &&& rec.grains@.len() == g.len()
                &&& forall|i: int| 0 <= i < g.len() ==> rec.grains@[i] == g[i]
            },
        },
{
    match check_modes(modes) {
        Err(_) => {
            return Err(GrimError::MixedModes);
        },
        Ok(()) => {},
    }
    if nn == 0 || nn > DENOM_LIMIT as u64 {
        return Err(GrimError::InvalidSampleSize);
    }
    if d > 12 {
        return Err(GrimError::OutOfRange);
    }
    proof {
        lemma_pow10_mono(d as nat, 18);
        lemma_pow10_mono((12 - d) as nat, 12);
        lemma_pow10_mono(12, 18);
        lemma_pow10_limits();
        lemma_pow10_pos(d as nat);
        lemma_pow10_pos((12 - d) as nat);
        crate::decimal::lemma_pow10_add(d as nat, (12 - d) as nat);
        reveal_with_fuel(crate::decimal::pow10, 13);
        assert(pow10(12) == 1_000_000_000_000);
        assert(-0x8000_0000_0000_0000 * 0x100_0000_0000 <= m * nn <= 0x8000_0000_0000_0000
            * 0x100_0000_0000) by (nonlinear_arith)
            requires
                -0x8000_0000_0000_0000 <= m < 0x8000_0000_0000_0000,
                0 < nn <= 0x100_0000_0000,
        ;
    }
    let p: i128 = pow10_exec(d) as i128;
    let e: i128 = pow10_exec(12 - d) as i128;
    let mn: i128 = m as i128 * nn as i128;
    let amn: i128 = if mn < 0 {
        -mn
    } else {
        mn
    };
    let nd: i128 = nn as i128;
    let widened = match (amn + p).checked_mul(e) {
        None => {
            return Err(GrimError::OutOfRange);
        },
        Some(v) => v,
    };
    if widened > NUMER_LIMIT - nd {
        return Err(GrimError::OutOfRange);
    }
    let (lo, rem) = div_floor(mn, p);
    let hi = div_ceil(mn, p);
    proof {
        vstd::arithmetic::div_mod::lemma_fundamental_div_mod(-mn, p as int);
        vstd::arithmetic::div_mod::lemma_mod_bound(-mn, p as int);
        let h = (-mn) / (p as int);
        assert(hi * p == -(h * p)) by (nonlinear_arith)
            requires
                hi == -h,
        ;
        assert(p * h == h * p) by (nonlinear_arith);
        assert(p * e == pow10(12));
        assert(-(amn + p) <= lo * p <= amn + p);
        assert(-(amn + p) <= hi * p <= amn + p);
        assert(-((amn + p) * e) <= lo * p * e <= (amn + p) * e && -((amn + p) * e) <= hi * p * e
            <= (amn + p) * e) by (nonlinear_arith)
            requires
                -(amn + p) <= lo * p <= amn + p,
                -(amn + p) <= hi * p <= amn + p,
                e >= 1,
        ;
        assert(lo * p * e == lo * pow10(12) && hi * p * e == hi * pow10(12)) by (nonlinear_arith)
            requires
                p * e == pow10(12),
        ;
        assert(0 < nd * e <= 0x100_0000_0000 * 1_000_000_000_000) by (nonlinear_arith)
            requires
                0 < nd <= 0x100_0000_0000,
                1 <= e <= 1_000_000_000_000,
        ;
    }
    let lo12: i128 = lo * p * e;
    let hi12: i128 = hi * p * e;
    let den: i128 = nd * e;
    // whether some mode rounds from the threshold, and then whether the threshold fits
    let mut any_from = false;
    let mut i: usize = 0;
    while i < modes.len()
        invariant
            i <= modes@.len(),
            any_from == exists|j: int| 0 <= j < i && uses_threshold(#[trigger] modes@[j]),
        decreases modes@.len() - i,
    {
        proof {
            if uses_threshold(modes@[i as int]) {
                assert(0 <= i < i + 1 && uses_threshold(modes@[i as int]));
            }
            if any_from {
                let j = choose|j: int| 0 <= j < i && uses_threshold(#[trigger] modes@[j]);
                assert(0 <= j < i + 1 && uses_threshold(modes@[j]));
            }
        }
        any_from = any_from || modes[i].uses_threshold();
        i = i + 1;
    }
    let ghost all = grains(m as int, d as nat, nn as int, modes@, threshold, symmetric);
    let mut out: Vec<i128> = Vec::new();
    let mut j: usize = 0;
    while j < modes.len()
        invariant
            j <= modes@.len(),
            !modes_mixed(modes@),
            sample_size_ok(nn as int),
            magnitude_ok(m as int, d as nat, nn as int),
            any_from == exists|jj: int| 0 <= jj < modes@.len() && uses_threshold(#[trigger] modes@[jj]),
            all == grains(m as int, d as nat, nn as int, modes@, threshold, symmetric),
            0 < nd <= DENOM_LIMIT,
            nd == nn,
            den == dust_den(nn as int, d as nat),
            0 < den <= WIDE_DENOM_LIMIT,
            d <= 12,
            threshold.wf(),
            lo == floor_div(m * nn, pow10(d as nat)),
            hi == ceil_div(m * nn, pow10(d as nat)),
            lo12 == lo * pow10(12),
            hi12 == hi * pow10(12),
            -NUMER_LIMIT <= lo12 - nd && lo12 + nd <= NUMER_LIMIT,
            -NUMER_LIMIT <= hi12 - nd && hi12 + nd <= NUMER_LIMIT,
            forall|k: int| 0 <= k < j ==> !(uses_threshold(#[trigger] modes@[k]) && is_default_threshold(threshold)),
            forall|k: int| 0 <= k < j && uses_threshold(#[trigger] modes@[k]) ==> spread_ok(den as int, threshold),
            out@.len() == grains(m as int, d as nat, nn as int, modes@.subrange(0, j as int), threshold, symmetric).len(),
            forall|k: int| 0 <= k < out@.len() ==> out@[k] == grains(m as int, d as nat, nn as int, modes@.subrange(0, j as int), threshold, symmetric)[k],
            forall|k: int| 0 <= k < out@.len() ==> -2 * NUMER_LIMIT <= #[trigger] out@[k] <= 2 * NUMER_LIMIT,
        decreases modes@.len() - j,
    {
        let mode = modes[j];
        if mode.uses_threshold() {
            if is_default_threshold_exec(threshold) {
                assert(uses_threshold(modes@[j as int]) && is_default_threshold(threshold));
                return Err(GrimError::ThresholdNotSpecified);
            }
            if !spread_fits(den, threshold) {
                proof {
                    assert(uses_threshold(modes@[j as int]));
                    assert(!threshold_missing(modes@, threshold)) by {
                        if threshold_missing(modes@, threshold) {
                            let k = choose|k: int| 0 <= k < modes@.len() && uses_threshold(#[trigger] modes@[k]) && is_default_threshold(threshold);
                        }
                    }
                }
                return Err(GrimError::OutOfRange);
            }
        }
        let ghost before = out@;
        let mut g = mode_grains_exec(lo12, hi12, nd, den, mode, threshold, symmetric);
        proof {
            assert(hi12 - nd == dusted(hi as int, nn as int, -1));
            assert(hi12 + nd == dusted(hi as int, nn as int, 1));
            assert(lo12 - nd == dusted(lo as int, nn as int, -1));
            assert(lo12 + nd == dusted(lo as int, nn as int, 1));
            let mg = mode_grains(m as int, d as nat, nn as int, mode, threshold, symmetric);
            assert(g@.len() == mg.len());
            assert(forall|k: int| 0 <= k < g@.len() ==> g@[k] == mg[k]);
        }
        out.append(&mut g);
        proof {
            let sub = modes@.subrange(0, j as int + 1);
            assert(sub.drop_last() =~= modes@.subrange(0, j as int));
            assert(sub.last() == mode);
        }
        j = j + 1;
    }
    proof {
        assert(modes@.subrange(0, modes@.len() as int) =~= modes@);
        assert(!threshold_missing(modes@, threshold));
    }
    let mut found = false;
    let mut i: usize = 0;
    while i < out.len()
        invariant
            i <= out@.len(),
            all == grains(m as int, d as nat, nn as int, modes@, threshold, symmetric),
            out@.len() == all.len(),
            forall|k: int| 0 <= k < out@.len() ==> out@[k] == all[k],
            forall|k: int| 0 <= k < out@.len() ==> -2 * NUMER_LIMIT <= #[trigger] out@[k] <= 2 * NUMER_LIMIT,
            d <= MAX_LITERAL_DIGITS,
            tolerance.wf(),
            found ==> grim_consistent(m as int, d as nat, nn as int, modes@, threshold, symmetric, tolerance),
            !found ==> forall|k: int| 0 <= k < i ==> !near(#[trigger] all[k], m as int, d as nat, tolerance),
        decreases out@.len() - i,
    {
        if near_exec(out[i], m, d, tolerance) {
            assert(near(all[i as int], m as int, d as nat, tolerance));
            found = true;
        }
        i = i + 1;
    }
    Ok(GrimReconstruction { consistent: found, sum_lower: lo, sum_upper: hi, grains: out })
}

/// The GRIM test of a reported mean `x` over `n` subjects with `items` items each:
/// whether some whole sum over `n * items` values has a mean that rounds to `x` under one
/// of the named rounding modes. `bool_params` holds, in order, whether `x` is a
/// percentage, whether the reconstruction is to be handed back, and whether rounding
/// from a threshold treats negative values as mirror images of positive ones. A literal
/// without decimal places is read as a whole number.
pub fn grim_scalar_rust(
    x: &str,
    n: u32,
    bool_params: Vec<bool>,
    items: u32,
    rounding: Vec<&str>,
    threshold: Decimal,
    tolerance: Decimal,
) -> (r: Result<GrimReturn, GrimError>)
    requires
        bool_params@.len() >= 3,
        threshold.wf(),
        tolerance.wf(),
    ensures
        match grim_scalar_outcome(
            x.spec_bytes(),
            n,
            items,
            bool_params@[0],
            rounding@,
            threshold,
            bool_params@[2],
            tolerance,
        ) {
            Err(e) => r == Err::<GrimReturn, GrimError>(e),
            Ok(b) => r is Ok && r->Ok_0.verdict() == b && (r->Ok_0 is List <==> bool_params@[1]),
        },
{
    grim_scalar_ref(x, n, &bool_params, items, &rounding, threshold, tolerance)
}

pub(crate) fn grim_scalar_ref(
    x: &str,
    n: u32,
    bool_params: &Vec<bool>,
    items: u32,
    rounding: &Vec<&str>,
    threshold: Decimal,
    tolerance: Decimal,
) -> (r: Result<GrimReturn, GrimError>)
    requires
        bool_params@.len() >= 3,
        threshold.wf(),
        tolerance.wf(),
    ensures
        match grim_scalar_outcome(
            x.spec_bytes(),
            n,
            items,
            bool_params@[0],
            rounding@,
            threshold,
            bool_params@[2],
            tolerance,
        ) {
            Err(e) => r == Err::<GrimReturn, GrimError>(e),
            Ok(b) => r is Ok && r->Ok_0.verdict() == b && (r->Ok_0 is List <==> bool_params@[1]),
        },
{
    let percent = bool_params[0];
    let show_rec = bool_params[1];
    let symmetric = bool_params[2];
    let lit = match parse_decimal(x) {
        Ok(l) => l,
        Err(_) => {
            return Err(GrimError::NotNumeric);
        },
    };
    let modes = match parse_modes(rounding) {
        Ok(ms) => ms,
        Err(_) => {
            return Err(GrimError::InvalidMode);
        },
    };
    let d: u32 = if percent {
        lit.value.scale + 2
    } else {
        lit.value.scale
    };
    proof {
        assert(0 <= n * items <= 0xffff_ffff * 0xffff_ffff) by (nonlinear_arith)
            requires
                n <= 0xffff_ffff,
                items <= 0xffff_ffff,
        ;
    }
    let nn: u64 = n as u64 * items as u64;
    let rec = match grim_check(lit.value.mantissa, d, nn, &modes, threshold, symmetric, tolerance) {
        Ok(rec) => rec,
        Err(e) => {
            return Err(e);
        },
    };
    if show_rec {
        Ok(GrimReturn::List(rec.consistent, rec))
    } else {
        Ok(GrimReturn::Bool(rec.consistent))
    }
}

/// GRIM over parallel lists of means, sample sizes and item counts, with the same
/// rounding, threshold and tolerance for every row. Gives one verdict per row, and the
/// indices of the rows that could not be checked, in increasing order; such a row's
/// verdict is `false`.
pub fn grim_rust(
    xs: Vec<&str>,
    ns: Vec<u32>,
    bool_params: Vec<bool>,
    items: Vec<u32>,
    rounding: Vec<&str>,
    threshold: Decimal,
    tolerance: Decimal,
) -> (r: Result<(Vec<bool>, Vec<usize>), GrimError>)
    requires
        bool_params@.len() >= 3,
        threshold.wf(),
        tolerance.wf(),
    ensures
        xs@.len() != ns@.len() || xs@.len() != items@.len() ==> r == Err::<
            (Vec<bool>, Vec<usize>),
            GrimError,
        >(GrimError::LengthMismatch),
        xs@.len() == ns@.len() && xs@.len() == items@.len() ==> r is Ok && {
            let (res, errs) = r->Ok_0;
            &&& res@.len() == xs@.len()
            &&& forall|i: int|
                0 <= i < xs@.len() ==> {
                    let o = grim_scalar_outcome(
                        (#[trigger] xs@[i]).spec_bytes(),
                        ns@[i],
                        items@[i],
                        bool_params@[0],
                        rounding@,
                        threshold,
                        bool_params@[2],
                        tolerance,
                    );
                    &&& res@[i] == (o == Ok::<bool, GrimError>(true))
                    &&& (o is Err <==> errs@.contains(i as usize))
                }
            &&& forall|a: int, b: int| 0 <= a < b < errs@.len() ==> errs@[a] < errs@[b]
        },
{
    if xs.len() != ns.len() || xs.len() != items.len() {
        return Err(GrimError::LengthMismatch);
    }
    let mut res: Vec<bool> = Vec::new();
    let mut errs: Vec<usize> = Vec::new();
    let mut i: usize = 0;
    while i < xs.len()
        invariant
            xs@.len() == ns@.len(),
            xs@.len() == items@.len(),
            bool_params@.len() >= 3,
            threshold.wf(),
            tolerance.wf(),
            i <= xs@.len(),
            res@.len() == i,
            forall|k: int| 0 <= k < errs@.len() ==> #[trigger] errs@[k] < i,
            forall|a: int, b: int| 0 <= a < b < errs@.len() ==> errs@[a] < errs@[b],
            forall|k: int|
                0 <= k < i ==> {
                    let o = grim_scalar_outcome(
                        (#[trigger] xs@[k]).spec_bytes(),
                        ns@[k],
                        items@[k],
                        bool_params@[0],
                        rounding@,
                        threshold,
                        bool_params@[2],
                        tolerance,
                    );
                    &&& res@[k] == (o == Ok::<bool, GrimError>(true))
                    &&& (o is Err <==> errs@.contains(k as usize))
                },
        decreases xs@.len() - i,
    {
        let row = grim_scalar_ref(xs[i], ns[i], &bool_params, items[i], &rounding, threshold, tolerance);
        let ghost before = errs@;
        match row {
            Ok(ret) => {
                res.push(ret.consistent());
            },
            Err(_) => {
                res.push(false);
                errs.push(i);
            },
        }
        proof {
            assert forall|k: int| 0 <= k < i implies (#[trigger] errs@.contains(k as usize) <==> before.contains(k as usize)) by {
                if errs@.contains(k as usize) && !before.contains(k as usize) {
                    let w = choose|w: int| 0 <= w < errs@.len() && errs@[w] == k as usize;
                    if w < before.len() {
                        assert(before[w] == errs@[w]);
                    }
                }
                if before.contains(k as usize) {
                    let w = choose|w: int| 0 <= w < before.len() && before[w] == k as usize;
                    assert(errs@[w] == k as usize);
                }
            }
            if row is Err {
                assert(errs@[errs@.len() - 1] == i);
            } else {
                assert forall|w: int| 0 <= w < errs@.len() implies errs@[w] != i by {
                    assert(errs@[w] == before[w]);
                }
            }
        }
        i = i + 1;
    }
    Ok((res, errs))
}

/// `a <= b` as numbers.
pub open spec fn decimal_le(a: Decimal, b: Decimal) -> bool {
    a.mantissa * pow10(b.scale as nat) <= b.mantissa * pow10(a.scale as nat)
}

proof fn lemma_near_monotone(q: int, m: int, d: nat, tol1: Decimal, tol2: Decimal)
    requires
        decimal_le(tol1, tol2),
        near(q, m, d, tol1),
    ensures
        near(q, m, d, tol2),
{
    let k1 = pow10(tol1.scale as nat);
    let k2 = pow10(tol2.scale as nat);
    let pd = pow10(d);
    lemma_pow10_pos(tol1.scale as nat);
    lemma_pow10_pos(tol2.scale as nat);
    lemma_pow10_pos(d);
    let e = abs(q - m);
    assert(e * k2 <= tol2.mantissa * pd) by (nonlinear_arith)
        requires
            e * k1 <= tol1.mantissa * pd,
            tol1.mantissa * k2 <= tol2.mantissa * k1,
            k1 >= 1,
            k2 >= 1,
            pd >= 1,
    {
        assert(e * k1 * k2 <= tol1.mantissa * pd * k2) by (nonlinear_arith)
            requires
                e * k1 <= tol1.mantissa * pd,
                k2 >= 1,
        ;
        assert(tol1.mantissa * k2 * pd <= tol2.mantissa * k1 * pd) by (nonlinear_arith)
            requires
                tol1.mantissa * k2 <= tol2.mantissa * k1,
                pd >= 1,
        ;
        assert(e * k2 * k1 <= tol2.mantissa * pd * k1);
    }
}

/// A larger tolerance never turns a consistent GRIM verdict inconsistent: where the check
/// passes at `tol1`, it passes at every `tol2` at least as large.
pub proof fn lemma_grim_tolerance_monotone(
    s: Seq<u8>,
    n: u32,
    items: u32,
    percent: bool,
    names: Seq<&str>,
    t: Decimal,
    symmetric: bool,
    tol1: Decimal,
    tol2: Decimal,
)
    requires
        decimal_le(tol1, tol2),
        grim_scalar_outcome(s, n, items, percent, names, t, symmetric, tol1) == Ok::<bool, GrimError>(true),
    ensures
        grim_scalar_outcome(s, n, items, percent, names, t, symmetric, tol2) == Ok::<bool, GrimError>(true),
{
    let m = literal_mantissa(s);
    let d = grim_places(s, percent);
    let nn = n * items;
    let modes = modes_of(names);
    let g = grains(m, d, nn, modes, t, symmetric);
    let i = choose|i: int| 0 <= i < g.len() && near(#[trigger] g[i], m, d, tol1);
    lemma_near_monotone(g[i], m, d, tol1, tol2);
    assert(near(g[i], m, d, tol2));
}

} // verus!
