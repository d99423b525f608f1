use vstd::prelude::*;
use vstd::string::StringSliceAdditionalSpecFns;

use crate::decimal::{
    frac_len, is_literal, lemma_pow10_limits, lemma_pow10_mono, lemma_pow10_pos, literal_mantissa,
    parse_decimal, pow10, pow10_exec, Decimal,
};
use crate::grim::{grim_scalar_outcome, grim_scalar_ref, modes_of, parse_modes, GrimError};
use crate::rounding::{
    ceil_div, div_ceil, div_floor, floor_div, mode_rules, uses_threshold, RoundingMode,
};
use crate::sqrt_round::{round_sqrt, sqrt_rounded};

verus! {

#[derive(Clone, Copy, Debug, PartialEq, Eq, Structural)]
pub enum GrimmerError {
    /// More than one item per subject: the test is not defined for it.
    UnsupportedItemsValue,
    /// The GRIM step could not be carried out.
    Grim(GrimError),
    /// The SD is not a decimal numeral.
    NotNumeric,
    /// The sample has fewer than two members.
    InvalidSampleSize,
    /// A mode that rounds from a threshold was given a threshold outside `[0, 10)` or with
    /// more than three decimal places.
    UnsupportedThreshold,
    /// The SD is negative, or the numbers are too large to be checked exactly: more than
    /// `GRIMMER_N_LIMIT` subjects, more than 6 decimal places in the SD, an SD mantissa
    /// above `GRIMMER_SD_LIMIT` or a whole sum beyond `GRIMMER_SUM_LIMIT`.
    OutOfRange,
}

/// How a GRIMMER check ended: at the first test that failed, or passed.
#[derive(Clone, Copy, Debug, PartialEq, Eq, Structural)]
pub enum GrimmerOutcome {
    FailedGrim,
    FailedTest1,
    FailedTest2,
    FailedTest3,
    Passed,
}

/// The verdict of a GRIMMER check, with the test that failed where that was asked for.
#[derive(Clone, Copy, Debug, PartialEq, Eq, Structural)]
pub enum GrimmerReturn {
    Bool(bool),
    Reason(GrimmerOutcome),
}

/// Largest sample that GRIMMER checks.
pub const GRIMMER_N_LIMIT: u32 = 0x10_0000;

/// Largest SD mantissa that GRIMMER checks.
pub const GRIMMER_SD_LIMIT: i64 = 0x100_0000;

/// Largest reconstructed sum that GRIMMER checks.
pub const GRIMMER_SUM_LIMIT: i128 = 0x4000_0000;

/// The whole sum nearest to `m / 10^dx * n`, halves away from zero.
pub open spec fn sum_real(m: int, dx: nat, n: int) -> int {
    let p = pow10(dx);
    if m >= 0 {
        floor_div(2 * m * n + p, 2 * p)
    } else {
        -floor_div(-2 * m * n + p, 2 * p)
    }
}

/// `((n - 1) sd^2 + n x^2)`, times `n 10^(2 ds + 2)`: the sum of squares for an SD of
/// `sdb / 10^(ds + 1)` and a mean of `s / n`.
pub open spec fn ss_num(sdb: int, n: int, s: int, ds: nat) -> int {
    (n - 1) * sdb * sdb * n + s * s * pow10(2 * ds + 2)
}

pub open spec fn ss_den(n: int, ds: nat) -> int {
    n * pow10(2 * ds + 2)
}

/// Lower end of the SD's interval at `ds + 1` places: half a unit below, never negative.
pub open spec fn sd_low(sm: int) -> int {
    if 10 * sm - 5 < 0 {
        0
    } else {
        10 * sm - 5
    }
}

/// Upper end of the SD's interval at `ds + 1` places: half a unit above.
pub open spec fn sd_high(sm: int) -> int {
    10 * sm + 5
}

/// Least whole sum of squares that the SD's interval allows.
pub open spec fn k_min(sm: int, n: int, s: int, ds: nat) -> int {
    ceil_div(ss_num(sd_low(sm), n, s, ds), ss_den(n, ds))
}

/// Greatest whole sum of squares that the SD's interval allows.
pub open spec fn k_max(sm: int, n: int, s: int, ds: nat) -> int {
    floor_div(ss_num(sd_high(sm), n, s, ds), ss_den(n, ds))
}

/// Numerator of the squared SD that the sum of squares `k` predicts, at `ds` places:
/// `(k n - s^2) 10^(2 ds)` over `n (n - 1)`.
pub open spec fn pred_num(k: int, n: int, s: int, ds: nat) -> int {
    (k * n - s * s) * pow10(2 * ds)
}

pub open spec fn pred_den(n: int) -> int {
    n * (n - 1)
}

/// The SD that the sum of squares `k` predicts rounds, under one of the modes, to the
/// reported mantissa `sm`.
pub open spec fn sd_matches(
    k: int,
    n: int,
    s: int,
    ds: nat,
    sm: int,
    modes: Seq<RoundingMode>,
    t: int,
) -> bool {
    exists|j: int, r: int|
        0 <= j < modes.len() && 0 <= r < mode_rules(modes[j]).len() && #[trigger] sqrt_rounded(
            mode_rules(modes[j])[r],
            pred_num(k, n, s, ds),
            pred_den(n),
            t,
            THRESHOLD_DENOM as int,
        ) == sm
}

/// Denominator of the tenth of the threshold that the square-root rounding works with.
pub const THRESHOLD_DENOM: i128 = 10_000;

/// Numerator over `THRESHOLD_DENOM` of a tenth of the threshold, where a mode rounds from
/// one: the threshold must lie in `[0, 10)` and have at most three decimal places. Where no
/// mode rounds from a threshold, none is needed.
pub open spec fn sqrt_threshold(modes: Seq<RoundingMode>, t: Decimal) -> Option<int> {
    if exists|i: int| 0 <= i < modes.len() && uses_threshold(#[trigger] modes[i]) {
        if t.scale <= 3 && 0 <= t.mantissa < 10 * pow10(t.scale as nat) {
            Some(t.mantissa * pow10((3 - t.scale) as nat))
        } else {
            None
        }
    } else {
        Some(0)
    }
}

/// The numbers are ones GRIMMER can check exactly.
pub open spec fn grimmer_fits(n: int, s: int, ds: nat, sm: int) -> bool {
    &&& n <= GRIMMER_N_LIMIT
    &&& ds <= 6
    &&& 0 <= sm <= GRIMMER_SD_LIMIT
    &&& -GRIMMER_SUM_LIMIT <= s <= GRIMMER_SUM_LIMIT
}

/// The tests past GRIM, for a whole sum `s` over `n` values and a reported SD of
/// `sm / 10^ds`.
pub open spec fn grimmer_tests(n: int, s: int, ds: nat, sm: int, modes: Seq<RoundingMode>, t: int) -> GrimmerOutcome {
    let lo = k_min(sm, n, s, ds);
    let hi = k_max(sm, n, s, ds);
    if lo > hi {
        GrimmerOutcome::FailedTest1
    } else if !(exists|k: int| lo <= k <= hi && #[trigger] sd_matches(k, n, s, ds, sm, modes, t)) {
        GrimmerOutcome::FailedTest2
    } else if !(exists|k: int|
        lo <= k <= hi && #[trigger] sd_matches(k, n, s, ds, sm, modes, t) && k % 2 == s % 2) {
        GrimmerOutcome::FailedTest3
    } else {
        GrimmerOutcome::Passed
    }
}

/// What GRIMMER gives for a mean `x` and an SD `sd` over `n` subjects with `items` items.
pub open spec fn grimmer_outcome(
    x: Seq<u8>,
    sd: Seq<u8>,
    n: u32,
    items: u32,
    names: Seq<&str>,
    t: Decimal,
    symmetric: bool,
    tol: Decimal,
) -> Result<GrimmerOutcome, GrimmerError> {
    if items > 1 {
        Err(GrimmerError::UnsupportedItemsValue)
    } else {
        match grim_scalar_outcome(x, n, items, false, names, t, symmetric, tol) {
            Err(e) => Err(GrimmerError::Grim(e)),
            Ok(false) => Ok(GrimmerOutcome::FailedGrim),
            Ok(true) => if !is_literal(sd) {
                Err(GrimmerError::NotNumeric)
            } else if n < 2 {
                Err(GrimmerError::InvalidSampleSize)
            } else {
                let s = sum_real(literal_mantissa(x), frac_len(x), n as int);
                let ds = frac_len(sd);
                let sm = literal_mantissa(sd);
                if !grimmer_fits(n as int, s, ds, sm) {
                    Err(GrimmerError::OutOfRange)
                } else {
                    match sqrt_threshold(modes_of(names), t) {
                        None => Err(GrimmerError::UnsupportedThreshold),
                        Some(ti) => Ok(grimmer_tests(n as int, s, ds, sm, modes_of(names), ti)),
                    }
                }
            },
        }
    }
}

/// A quotient rounded up, times its divisor, reaches the dividend; one rounded down stays
/// within it.
proof fn lemma_div_brackets(x: int, d: int)
    requires
        d > 0,
    ensures
        ceil_div(x, d) * d >= x,
        floor_div(x, d) * d <= x,
{
    vstd::arithmetic::div_mod::lemma_fundamental_div_mod(x, d);
    vstd::arithmetic::div_mod::lemma_mod_bound(x, d);
    vstd::arithmetic::div_mod::lemma_fundamental_div_mod(-x, d);
    vstd::arithmetic::div_mod::lemma_mod_bound(-x, d);
    assert(floor_div(x, d) * d <= x) by (nonlinear_arith)
        requires
            x == d * (x / d) + x % d,
            x % d >= 0,
    ;
    assert(ceil_div(x, d) * d >= x) by (nonlinear_arith)
        requires
            -x == d * ((-x) / d) + (-x) % d,
            (-x) % d < d,
            (-x) % d >= 0,
            ceil_div(x, d) == -((-x) / d),
    ;
}

/// Every sum of squares in the allowed range predicts a squared SD that the square-root
/// rounding can carry.
proof fn lemma_pred_bounds(k: int, n: int, s: int, ds: nat, sm: int)
    requires
        2 <= n,
        grimmer_fits(n, s, ds, sm),
        k_min(sm, n, s, ds) <= k <= k_max(sm, n, s, ds),
    ensures
        0 <= pred_num(k, n, s, ds) <= crate::sqrt_round::SQRT_NUMER_LIMIT,
        0 < pred_den(n) <= crate::sqrt_round::SQRT_DENOM_LIMIT,
        floor_div(pred_num(k, n, s, ds), pred_den(n)) < crate::sqrt_round::SQRT_VALUE_LIMIT,
        0 <= k,
        s * s <= k * n <= 0x1_0000_0000_0000_0000_0000_0000_0000,
        0 <= s * s <= 0x4000_0000 * 0x4000_0000,
{
    let p = pow10(2 * ds);
    let q = pow10(2 * ds + 2);
    lemma_pow10_pos(2 * ds);
    crate::decimal::lemma_pow10_add(2 * ds, 2);
    reveal_with_fuel(pow10, 3);
    assert(q == p * 100);
    lemma_pow10_mono(2 * ds, 12);
    crate::decimal::lemma_pow10_limits();
    lemma_pow10_mono(12, 17);
    let sdl = sd_low(sm);
    let sdu = sd_high(sm);
    let den = ss_den(n, ds);
    assert(den == n * q);
    assert(den > 0) by (nonlinear_arith)
        requires
            den == n * q,
            n >= 2,
            q >= 1,
    ;
    lemma_div_brackets(ss_num(sdl, n, s, ds), den);
    lemma_div_brackets(ss_num(sdu, n, s, ds), den);
    let lo = k_min(sm, n, s, ds);
    let hi = k_max(sm, n, s, ds);
    assert(k * den >= lo * den && k * den <= hi * den) by (nonlinear_arith)
        requires
            lo <= k <= hi,
            den > 0,
    ;
    assert(ss_num(sdl, n, s, ds) >= s * s * q) by (nonlinear_arith)
        requires
            ss_num(sdl, n, s, ds) == (n - 1) * sdl * sdl * n + s * s * q,
            n >= 2,
    ;
    assert(k * n >= s * s) by (nonlinear_arith)
        requires
            k * den >= s * s * q,
            den == n * q,
            q >= 1,
    ;
    assert(0 <= k) by (nonlinear_arith)
        requires
            k * n >= s * s,
            n >= 2,
    ;
    assert((k * n - s * s) * q <= (n - 1) * n * sdu * sdu) by (nonlinear_arith)
        requires
            k * den <= (n - 1) * sdu * sdu * n + s * s * q,
            den == n * q,
    ;
    assert(0 <= sdu <= 0xa00_0005);
    assert(0 <= sdu * sdu <= 0xa00_0005 * 0xa00_0005) by (nonlinear_arith)
        requires
            0 <= sdu <= 0xa00_0005,
    ;
    assert(0 < n * (n - 1) <= 0x10_0000 * 0x10_0000) by (nonlinear_arith)
        requires
            2 <= n <= 0x10_0000,
    ;
    let pn = pred_num(k, n, s, ds);
    let pd = pred_den(n);
    assert(pn * 100 <= pd * (sdu * sdu)) by (nonlinear_arith)
        requires
            pn == (k * n - s * s) * p,
            (k * n - s * s) * (p * 100) <= (n - 1) * n * sdu * sdu,
            pd == n * (n - 1),
    ;
    assert(pn >= 0) by (nonlinear_arith)
        requires
            pn == (k * n - s * s) * p,
            k * n >= s * s,
            p >= 1,
    ;
    assert(pd * (sdu * sdu) <= 0x10_0000 * 0x10_0000 * (0xa00_0005 * 0xa00_0005)) by (nonlinear_arith)
        requires
            0 < pd <= 0x10_0000 * 0x10_0000,
            0 <= sdu * sdu <= 0xa00_0005 * 0xa00_0005,
    ;
    lemma_div_brackets(pn, pd);
    let w = floor_div(pn, pd);
    assert(w * 100 <= sdu * sdu) by (nonlinear_arith)
        requires
            w * pd <= pn,
            pn * 100 <= pd * (sdu * sdu),
            pd > 0,
            w >= 0 || w < 0,
    {
        assert(w * pd * 100 <= pd * (sdu * sdu)) by (nonlinear_arith)
            requires
                w * pd <= pn,
                pn * 100 <= pd * (sdu * sdu),
        ;
    }
    assert(k * n <= s * s + (n - 1) * n * sdu * sdu) by (nonlinear_arith)
        requires
            (k * n - s * s) * q <= (n - 1) * n * sdu * sdu,
            q >= 1,
            k * n >= s * s,
    ;
    assert(0 <= s * s <= 0x4000_0000 * 0x4000_0000) by (nonlinear_arith)
        requires
            -0x4000_0000 <= s <= 0x4000_0000,
    ;
    assert((n - 1) * n * sdu * sdu == pd * (sdu * sdu)) by (nonlinear_arith)
        requires
            pd == n * (n - 1),
    ;
}

/// The whole sum nearest to `m / 10^dx * n`, halves away from zero, computed.
fn sum_real_exec(m: i64, dx: u32, n: u32) -> (r: i128)
    requires
        dx <= 18,
    ensures
        r == sum_real(m as int, dx as nat, n as int),
{
    proof {
        lemma_pow10_mono(dx as nat, 18);
        lemma_pow10_limits();
        lemma_pow10_pos(dx as nat);
        assert(-0x8000_0000_0000_0000 * 0xffff_ffff <= m * n <= 0x8000_0000_0000_0000
            * 0xffff_ffff) by (nonlinear_arith)
            requires
                -0x8000_0000_0000_0000 <= m < 0x8000_0000_0000_0000,
                0 <= n <= 0xffff_ffff,
        ;
    }
    let p = pow10_exec(dx) as i128;
    let mn: i128 = m as i128 * n as i128;
    proof {
        assert(-0x8000_0000_0000_0000 * 0xffff_ffff <= mn <= 0x8000_0000_0000_0000 * 0xffff_ffff);
        assert(1 <= p <= 1_000_000_000_000_000_000);
        if m >= 0 {
            assert(mn >= 0) by (nonlinear_arith)
                requires
                    mn == m * n,
                    m >= 0,
                    n >= 0,
            ;
        } else {
            assert(mn <= 0) by (nonlinear_arith)
                requires
                    mn == m * n,
                    m < 0,
                    n >= 0,
            ;
        }
    }
    if m >= 0 {
        proof {
            assert(2 * m * n == 2 * mn) by (nonlinear_arith)
                requires
                    mn == m * n,
            ;
            assert(0 <= 2 * mn <= 0xffff_ffff_0000_0000_0000_0000) by (nonlinear_arith)
                requires
                    mn == m * n,
                    0 <= m < 0x8000_0000_0000_0000,
                    0 <= n <= 0xffff_ffff,
            ;
        }
        div_floor(2 * mn + p, 2 * p).0
    } else {
        proof {
            assert(-2 * m * n == -2 * mn) by (nonlinear_arith)
                requires
                    mn == m * n,
            ;
            assert(0 <= -2 * mn <= 0xffff_ffff_0000_0000_0000_0000) by (nonlinear_arith)
                requires
                    mn == m * n,
                    m < 0,
                    0 <= n <= 0xffff_ffff,
                    -0x8000_0000_0000_0000 <= m,
            ;
        }
        -div_floor(-2 * mn + p, 2 * p).0
    }
}

/// Some mode rounds the SD that `k` predicts to `sm`, computed.
fn sd_matches_exec(
    k: i128,
    n: i128,
    s: i128,
    ds: u32,
    sm: i128,
    modes: &Vec<RoundingMode>,
    t: i128,
) -> (r: bool)
    requires
        2 <= n,
        grimmer_fits(n as int, s as int, ds as nat, sm as int),
        k_min(sm as int, n as int, s as int, ds as nat) <= k <= k_max(sm as int, n as int, s as int, ds as nat),
        0 <= t < THRESHOLD_DENOM,
    ensures
        r == sd_matches(k as int, n as int, s as int, ds as nat, sm as int, modes@, t as int),
{
    proof {
        lemma_pred_bounds(k as int, n as int, s as int, ds as nat, sm as int);
        lemma_pow10_mono(2 * ds as nat, 12);
        lemma_pow10_limits();
        lemma_pow10_mono(12, 17);
        lemma_pow10_pos(2 * ds as nat);
        assert(s * s <= 0x4000_0000 * 0x4000_0000) by (nonlinear_arith)
            requires
                -0x4000_0000 <= s <= 0x4000_0000,
        ;
    }
    let p2 = pow10_exec(2 * ds) as i128;
    let a: i128 = (k * n - s * s) * p2;
    let b: i128 = n * (n - 1);
    proof {
        assert(0 < n * (n - 1) <= 0x10_0000 * 0x10_0000) by (nonlinear_arith)
            requires
                2 <= n <= 0x10_0000,
        ;
        assert(THRESHOLD_DENOM * THRESHOLD_DENOM * b <= 0x10_0000_0000_0000_0000) by (nonlinear_arith)
            requires
                0 < b <= 0x10_0000 * 0x10_0000,
        ;
    }
    let mut j: usize = 0;
    while j < modes.len()
        invariant
            j <= modes@.len(),
            THRESHOLD_DENOM * THRESHOLD_DENOM * b <= 0x10_0000_0000_0000_0000,
            a == pred_num(k as int, n as int, s as int, ds as nat),
            b == pred_den(n as int),
            0 <= a <= crate::sqrt_round::SQRT_NUMER_LIMIT,
            0 < b <= crate::sqrt_round::SQRT_DENOM_LIMIT,
            floor_div(a as int, b as int) < crate::sqrt_round::SQRT_VALUE_LIMIT,
            0 <= t < THRESHOLD_DENOM,
            forall|jj: int, rr: int|
                0 <= jj < j && 0 <= rr < mode_rules(modes@[jj]).len() ==> #[trigger] sqrt_rounded(
                    mode_rules(modes@[jj])[rr],
                    a as int,
                    b as int,
                    t as int,
                    THRESHOLD_DENOM as int,
                ) != sm,
        decreases modes@.len() - j,
    {
        let rules = modes[j].rules();
        let mut r: usize = 0;
        while r < rules.len()
            invariant
                j < modes@.len(),
                THRESHOLD_DENOM * THRESHOLD_DENOM * b <= 0x10_0000_0000_0000_0000,
                a == pred_num(k as int, n as int, s as int, ds as nat),
                b == pred_den(n as int),
                rules@ == mode_rules(modes@[j as int]),
                r <= rules@.len(),
                0 <= a <= crate::sqrt_round::SQRT_NUMER_LIMIT,
                0 < b <= crate::sqrt_round::SQRT_DENOM_LIMIT,
                floor_div(a as int, b as int) < crate::sqrt_round::SQRT_VALUE_LIMIT,
                0 <= t < THRESHOLD_DENOM,
                forall|jj: int, rr: int|
                    0 <= jj < j && 0 <= rr < mode_rules(modes@[jj]).len() ==> #[trigger] sqrt_rounded(
                        mode_rules(modes@[jj])[rr],
                        a as int,
                        b as int,
                        t as int,
                        THRESHOLD_DENOM as int,
                    ) != sm,
                forall|rr: int| 0 <= rr < r ==> #[trigger] sqrt_rounded(rules@[rr], a as int, b as int, t as int, THRESHOLD_DENOM as int) != sm,
            decreases rules@.len() - r,
        {
            if round_sqrt(rules[r], a, b, t, THRESHOLD_DENOM) == sm {
                assert(sqrt_rounded(
                    mode_rules(modes@[j as int])[r as int],
                    pred_num(k as int, n as int, s as int, ds as nat),
                    pred_den(n as int),
                    t as int,
                    THRESHOLD_DENOM as int,
                ) == sm);
                return true;
            }
            r = r + 1;
        }
        j = j + 1;
    }
    false
}

/// The tests past GRIM, computed.
fn grimmer_tests_exec(n: i128, s: i128, ds: u32, sm: i128, modes: &Vec<RoundingMode>, t: i128) -> (r:
    GrimmerOutcome)
    requires
        2 <= n,
        grimmer_fits(n as int, s as int, ds as nat, sm as int),
        0 <= t < THRESHOLD_DENOM,
    ensures
        r == grimmer_tests(n as int, s as int, ds as nat, sm as int, modes@, t as int),
{
    proof {
        lemma_pow10_mono((2 * ds + 2) as nat, 14);
        lemma_pow10_limits();
        lemma_pow10_mono(14, 17);
        lemma_pow10_pos((2 * ds + 2) as nat);
        reveal_with_fuel(pow10, 15);
    }
    let q = pow10_exec(2 * ds + 2) as i128;
    let sdl: i128 = if 10 * sm - 5 < 0 {
        0
    } else {
        10 * sm - 5
    };
    let sdu: i128 = 10 * sm + 5;
    proof {
        assert(0 <= (n - 1) * sdl <= 0x10_0000 * 0xa00_0005) by (nonlinear_arith)
            requires
                2 <= n <= 0x10_0000,
                0 <= sdl <= 0xa00_0005,
        ;
        assert(0 <= (n - 1) * sdl * sdl <= 0x10_0000 * 0xa00_0005 * 0xa00_0005) by (nonlinear_arith)
            requires
                2 <= n <= 0x10_0000,
                0 <= sdl <= 0xa00_0005,
        ;
        assert(0 <= (n - 1) * sdu <= 0x10_0000 * 0xa00_0005) by (nonlinear_arith)
            requires
                2 <= n <= 0x10_0000,
                0 <= sdu <= 0xa00_0005,
        ;
        assert(0 <= (n - 1) * sdu * sdu <= 0x10_0000 * 0xa00_0005 * 0xa00_0005) by (nonlinear_arith)
            requires
                2 <= n <= 0x10_0000,
                0 <= sdu <= 0xa00_0005,
        ;
        assert(0 <= s * s <= 0x4000_0000 * 0x4000_0000) by (nonlinear_arith)
            requires
                -0x4000_0000 <= s <= 0x4000_0000,
        ;
        assert(0 <= (n - 1) * sdl * sdl * n <= 0x10_0000 * 0xa00_0005 * 0xa00_0005 * 0x10_0000) by (nonlinear_arith)
            requires
                2 <= n <= 0x10_0000,
                0 <= sdl <= 0xa00_0005,
        ;
        assert(0 <= (n - 1) * sdu * sdu * n <= 0x10_0000 * 0xa00_0005 * 0xa00_0005 * 0x10_0000) by (nonlinear_arith)
            requires
                2 <= n <= 0x10_0000,
                0 <= sdu <= 0xa00_0005,
        ;
        assert(0 <= s * s * q <= 0x4000_0000 * 0x4000_0000 * 100_000_000_000_000) by (nonlinear_arith)
            requires
                -0x4000_0000 <= s <= 0x4000_0000,
                1 <= q <= 100_000_000_000_000,
        ;
        assert(0 < n * q <= 0x10_0000 * 100_000_000_000_000) by (nonlinear_arith)
            requires
                2 <= n <= 0x10_0000,
                1 <= q <= 100_000_000_000_000,
        ;
    }
    let lo_num: i128 = (n - 1) * sdl * sdl * n + s * s * q;
    let hi_num: i128 = (n - 1) * sdu * sdu * n + s * s * q;
    let den: i128 = n * q;
    let kmin = div_ceil(lo_num, den);
    let kmax = div_floor(hi_num, den).0;
    if kmin > kmax {
        return GrimmerOutcome::FailedTest1;
    }
    let sp = div_floor(s, 2).1;
    let mut found2 = false;
    let mut found3 = false;
    let mut k: i128 = kmin;
    while k <= kmax && !found3
        invariant
            kmax <= hi_num,
            hi_num <= 0x10_0000 * 0xa00_0005 * 0xa00_0005 * 0x10_0000 + 0x4000_0000 * 0x4000_0000 * 100_000_000_000_000,
            2 <= n,
            grimmer_fits(n as int, s as int, ds as nat, sm as int),
            0 <= t < THRESHOLD_DENOM,
            kmin == k_min(sm as int, n as int, s as int, ds as nat),
            kmax == k_max(sm as int, n as int, s as int, ds as nat),
            kmin <= k <= kmax + 1,
            sp == s % 2,
            found3 ==> found2 && exists|kk: int|
                kmin <= kk <= kmax && #[trigger] sd_matches(kk, n as int, s as int, ds as nat, sm as int, modes@, t as int)
                    && kk % 2 == s % 2,
            found2 ==> exists|kk: int|
                kmin <= kk <= kmax && #[trigger] sd_matches(kk, n as int, s as int, ds as nat, sm as int, modes@, t as int),
            !found2 ==> forall|kk: int|
                kmin <= kk < k ==> !#[trigger] sd_matches(kk, n as int, s as int, ds as nat, sm as int, modes@, t as int),
            !found3 ==> forall|kk: int|
                kmin <= kk < k && #[trigger] sd_matches(kk, n as int, s as int, ds as nat, sm as int, modes@, t as int)
                    ==> kk % 2 != s % 2,
        decreases kmax + 1 - k,
    {
        proof {
            lemma_pred_bounds(k as int, n as int, s as int, ds as nat, sm as int);
        }
        let m = sd_matches_exec(k, n, s, ds, sm, modes, t);
        if m {
            found2 = true;
            if k % 2 == sp {
                found3 = true;
            }
        }
        k = k + 1;
    }
    if found3 {
        GrimmerOutcome::Passed
    } else if !found2 {
        GrimmerOutcome::FailedTest2
    } else {
        GrimmerOutcome::FailedTest3
    }
}

/// The GRIMMER test of a reported mean `x` and SD `sd` over `n` subjects: GRIM on the
/// mean, then whether a whole sum of squares fits the SD's interval (test 1), whether one
/// of those predicts an SD that rounds to `sd` (test 2), and whether such a one has the
/// parity of the whole sum (test 3). `bool_params` holds, in order, whether the test that
/// failed is to be handed back, and whether rounding from a threshold treats negative
/// values as mirror images of positive ones. More than one item per subject is refused.
pub fn grimmer_scalar(
    x: &str,
    sd: &str,
    n: u32,
    items: u32,
    bool_params: Vec<bool>,
    rounding: Vec<&str>,
    threshold: Decimal,
    tolerance: Decimal,
) -> (r: Result<GrimmerReturn, GrimmerError>)
    requires
        bool_params@.len() >= 2,
        threshold.wf(),
        tolerance.wf(),
    ensures
        match grimmer_outcome(
            x.spec_bytes(),
            sd.spec_bytes(),
            n,
            items,
            rounding@,
            threshold,
            bool_params@[1],
            tolerance,
        ) {
            Err(e) => r == Err::<GrimmerReturn, GrimmerError>(e),
            Ok(o) => r is Ok && (bool_params@[0] ==> r->Ok_0 == GrimmerReturn::Reason(o)) && (
            !bool_params@[0] ==> r->Ok_0 == GrimmerReturn::Bool(o == GrimmerOutcome::Passed)),
        },
{
    let show_reason = bool_params[0];
    let symmetric = bool_params[1];
    let outcome = match grimmer_check(x, sd, n, items, &rounding, threshold, symmetric, tolerance) {
        Err(e) => {
            return Err(e);
        },
        Ok(o) => o,
    };
    if show_reason {
        Ok(GrimmerReturn::Reason(outcome))
    } else {
        Ok(GrimmerReturn::Bool(outcome == GrimmerOutcome::Passed))
    }
}

fn grimmer_check(
    x: &str,
    sd: &str,
    n: u32,
    items: u32,
    rounding: &Vec<&str>,
    threshold: Decimal,
    symmetric: bool,
    tolerance: Decimal,
) -> (r: Result<GrimmerOutcome, GrimmerError>)
    requires
        threshold.wf(),
        tolerance.wf(),
    ensures
        r == grimmer_outcome(
            x.spec_bytes(),
            sd.spec_bytes(),
            n,
            items,
            rounding@,
            threshold,
            symmetric,
            tolerance,
        ),
{
    if items > 1 {
        return Err(GrimmerError::UnsupportedItemsValue);
    }
    let grim_params = vec![false, false, symmetric];
    match grim_scalar_ref(x, n, &grim_params, items, rounding, threshold, tolerance) {
        Err(e) => {
            return Err(GrimmerError::Grim(e));
        },
        Ok(ret) => {
            if !ret.consistent() {
                return Ok(GrimmerOutcome::FailedGrim);
            }
        },
    }
    let sd_lit = match parse_decimal(sd) {
        Err(_) => {
            return Err(GrimmerError::NotNumeric);
        },
        Ok(l) => l,
    };
    if n < 2 {
        return Err(GrimmerError::InvalidSampleSize);
    }
    let x_lit = match parse_decimal(x) {
        Err(_) => {
            return Err(GrimmerError::NotNumeric);
        },
        Ok(l) => l,
    };
    let s = sum_real_exec(x_lit.value.mantissa, x_lit.value.scale, n);
    let ds = sd_lit.value.scale;
    let sm = sd_lit.value.mantissa;
    if n > GRIMMER_N_LIMIT || ds > 6 || sm < 0 || sm > GRIMMER_SD_LIMIT || s < -GRIMMER_SUM_LIMIT
        || s > GRIMMER_SUM_LIMIT {
        return Err(GrimmerError::OutOfRange);
    }
    let modes = match parse_modes(rounding) {
        Err(_) => {
            return Err(GrimmerError::Grim(GrimError::InvalidMode));
        },
        Ok(ms) => ms,
    };
    let mut any_from = false;
    let mut i: usize = 0;
    while i < modes.len()
        invariant
            i <= modes@.len(),
            any_from == exists|j: int| 0 <= j < i && uses_threshold(#[trigger] modes@[j]),
        decreases modes@.len() - i,
    {
        proof {
            if uses_threshold(modes@[i as int]) {
                assert(0 <= i < i + 1 && uses_threshold(modes@[i as int]));
            }
            if any_from {
                let j = choose|j: int| 0 <= j < i && uses_threshold(#[trigger] modes@[j]);
                assert(0 <= j < i + 1 && uses_threshold(modes@[j]));
            }
        }
        any_from = any_from || modes[i].uses_threshold();
        i = i + 1;
    }
    let t: i128 = if any_from {
        if threshold.scale > 3 {
            return Err(GrimmerError::UnsupportedThreshold);
        }
        proof {
            lemma_pow10_mono(threshold.scale as nat, 3);
            lemma_pow10_mono((3 - threshold.scale) as nat, 3);
            lemma_pow10_pos(threshold.scale as nat);
            lemma_pow10_pos((3 - threshold.scale) as nat);
            crate::decimal::lemma_pow10_add(threshold.scale as nat, (3 - threshold.scale) as nat);
            reveal_with_fuel(pow10, 4);
        }
        let p = pow10_exec(threshold.scale) as i128;
        let m = threshold.mantissa as i128;
        if m < 0 || m >= 10 * p {
            return Err(GrimmerError::UnsupportedThreshold);
        }
        proof {
            assert(m * pow10((3 - threshold.scale) as nat) < THRESHOLD_DENOM) by (nonlinear_arith)
                requires
                    0 <= m < 10 * p,
                    p * pow10((3 - threshold.scale) as nat) == 1000,
                    pow10((3 - threshold.scale) as nat) >= 1,
            ;
            assert(m * pow10((3 - threshold.scale) as nat) >= 0) by (nonlinear_arith)
                requires
                    0 <= m,
                    pow10((3 - threshold.scale) as nat) >= 1,
            ;
        }
        m * (pow10_exec(3 - threshold.scale) as i128)
    } else {
        0
    };
    Ok(grimmer_tests_exec(n as i128, s, ds, sm as i128, &modes, t))
}

/// GRIMMER passes only where GRIM passes on the same mean, sample and modes.
pub proof fn lemma_grimmer_needs_grim(
    x: Seq<u8>,
    sd: Seq<u8>,
    n: u32,
    items: u32,
    names: Seq<&str>,
    t: Decimal,
    symmetric: bool,
    tol: Decimal,
)
    requires
        grimmer_outcome(x, sd, n, items, names, t, symmetric, tol) == Ok::<
            GrimmerOutcome,
            GrimmerError,
        >(GrimmerOutcome::Passed),
    ensures
        grim_scalar_outcome(x, n, items, false, names, t, symmetric, tol) == Ok::<bool, GrimError>(
            true,
        ),
{
}

} // verus!
