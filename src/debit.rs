use vstd::prelude::*;
use vstd::string::StringSliceAdditionalSpecFns;

use crate::bounds::{unround, unround_scale, unround_spec, RoudingBoundError, UnroundReturn};
use crate::decimal::{
    frac_len, is_literal, lemma_pow10_limits, lemma_pow10_mono, lemma_pow10_pos, pow10, pow10_exec,
    Decimal,
};
use crate::grim::{is_mode_name, lemma_mode_name_injective, mode_of};
use crate::rounding::{abs_int, div_floor, floor_div, mode_name, mode_rules, str_eq, RoundingMode};
use crate::sqrt_round::{
    round_sqrt_split, split_den, split_num, split_ok, split_unit, sqrt_rounded,
};

verus! {

#[derive(Clone, Copy, Debug, PartialEq, Eq, Structural)]
pub enum DebitError {
    /// The mean or the SD is not a decimal numeral.
    NotNumeric,
    /// The rounding name is none of the modes.
    InvalidMode,
    /// The reconstruction formula is not `mean_n`. DEBIT is given a mean and a sample
    /// size, not counts of zeros and ones, so the count formulas (`0_n`, `1_n`, `groups`)
    /// have nothing to work from; `sd_binary` offers them on counts.
    InvalidFormula,
    /// The mode gives no bound, or `anti_trunc` met a zero.
    Bound(RoudingBoundError),
    /// The bounds of the mean leave the range of a proportion.
    ProportionOutOfRange,
    /// The sample has fewer than two members.
    InvalidSampleSize,
    /// The numbers are too large to be checked exactly.
    OutOfRange,
}

/// The verdict of a DEBIT check with the values it was given.
#[derive(Clone, Debug)]
pub struct DebitTable {
    pub sd: String,
    pub x: String,
    pub n: u32,
    pub consistency: bool,
}

impl DebitTable {
    pub fn new(sd: String, x: String, n: u32, consistency: bool) -> (r: DebitTable)
        ensures
            r.sd@ == sd@,
            r.x@ == x@,
            r.n == n,
            r.consistency == consistency,
    {
        DebitTable { sd, x, n, consistency }
    }
}

/// A DEBIT verdict with the bounds it rests on: those of the SD at one place past the SD's
/// precision, and those of the mean at one place past the mean's precision.
#[derive(Clone, Debug)]
pub struct DebitTableVerbose {
    pub sd: String,
    pub x: String,
    pub n: u32,
    pub consistency: bool,
    pub rounding: String,
    pub sd_bound: UnroundReturn,
    pub x_bound: UnroundReturn,
    pub reconstructions: Vec<i128>,
}

/// The result of a DEBIT check, terse or with its bounds.
#[derive(Clone, Debug)]
pub enum DebitTables {
    DebitTable(DebitTable),
    DebitTableVerbose(DebitTableVerbose),
}

impl DebitTables {
    pub open spec fn verdict(self) -> bool {
        match self {
            DebitTables::DebitTable(t) => t.consistency,
            DebitTables::DebitTableVerbose(t) => t.consistency,
        }
    }

    /// The verdict, whichever shape the result has.
    pub fn consistency(&self) -> (r: bool)
        ensures
            r == self.verdict(),
    {
        match self {
            DebitTables::DebitTable(t) => t.consistency,
            DebitTables::DebitTableVerbose(t) => t.consistency,
        }
    }
}

/// Numerator of the squared SD of binary data with proportion `p / d` over `n` values, at
/// `k` decimal places: `n p (d - p) 10^(2k)`, over `binary_var_den`.
pub open spec fn binary_var_num(p: int, d: int, n: int, k: nat) -> int {
    n * p * (d - p) * pow10(2 * k)
}

/// Denominator of the squared SD of binary data: `(n - 1) d^2`.
pub open spec fn binary_var_den(d: int, n: int) -> int {
    (n - 1) * d * d
}

/// The SDs at `k` places that the proportion `p / d` gives under `mode`, one per rule.
pub open spec fn sd_reconstructions(p: int, d: int, n: int, k: nat, mode: RoundingMode) -> Seq<
    int,
> {
    mode_rules(mode).map_values(
        |rule| sqrt_rounded(rule, binary_var_num(p, d, n, k), binary_var_den(d, n), 0, 10),
    )
}

/// Some reconstruction `r` (at `k` places, scaled by `sf` to the end's places) lies at or
/// above the lower end `lo`, strictly where the end is excluded.
pub open spec fn lower_ok(lo: int, incl: bool, sf: int, rs: Seq<int>) -> bool {
    exists|i: int|
        0 <= i < rs.len() && if incl {
            lo <= sf * #[trigger] rs[i]
        } else {
            lo < sf * rs[i]
        }
}

/// Some reconstruction lies at or below the upper end `up`, strictly where it is excluded.
pub open spec fn upper_ok(up: int, incl: bool, sf: int, rs: Seq<int>) -> bool {
    exists|i: int|
        0 <= i < rs.len() && if incl {
            sf * #[trigger] rs[i] <= up
        } else {
            sf * rs[i] < up
        }
}

/// The reported SD's interval overlaps the reconstructions.
pub open spec fn overlap(lo: int, incl_lo: bool, up: int, incl_up: bool, sf: int, rs: Seq<int>) -> bool {
    lower_ok(lo, incl_lo, sf, rs) && upper_ok(up, incl_up, sf, rs)
}

/// The threshold of both bounds: the square root of f64's machine epsilon, to eleven
/// digits (1.4901161193e-8).
pub open spec fn sqrt_eps() -> Decimal {
    Decimal { mantissa: 14901161193, scale: 18 }
}

/// Whole part, to the nearest, of a bound `p` in units of `10^18` of its scale.
pub open spec fn split_u(p: int) -> int {
    floor_div(2 * p + split_unit(), 2 * split_unit())
}

/// What is left of `p` past `split_u(p)` units.
pub open spec fn split_v(p: int) -> int {
    p - split_u(p) * split_unit()
}

/// Largest remainder of a split bound.
pub const SPLIT_REST_LIMIT: i128 = 0x8_0000_0000;

/// What DEBIT gives for a mean `x`, an SD `sd` and a sample of `n`.
pub open spec fn debit_outcome(
    x: Seq<u8>,
    sd: Seq<u8>,
    n: int,
    formula: Seq<char>,
    rounding: Seq<char>,
) -> Result<bool, DebitError> {
    if !is_literal(x) || !is_literal(sd) {
        Err(DebitError::NotNumeric)
    } else if !is_mode_name(rounding) {
        Err(DebitError::InvalidMode)
    } else if formula != "mean_n"@ {
        Err(DebitError::InvalidFormula)
    } else {
        let mode = mode_of(rounding);
        match unround_spec(x, mode, sqrt_eps()) {
            Err(e) => Err(DebitError::Bound(e)),
            Ok(xb) => match unround_spec(sd, mode, sqrt_eps()) {
                Err(e) => Err(DebitError::Bound(e)),
                Ok(sb) => {
                    let dx = frac_len(x);
                    let k = frac_len(sd);
                    let d = pow10(dx + 19);
                    if n < 2 {
                        Err(DebitError::InvalidSampleSize)
                    } else if !(dx <= 6 && k <= 4 && n <= 0x10_0000) {
                        Err(DebitError::OutOfRange)
                    } else if xb.0 < 0 || xb.1 > d {
                        Err(DebitError::ProportionOutOfRange)
                    } else if !(abs_int(split_v(xb.0)) <= SPLIT_REST_LIMIT && abs_int(split_v(xb.1))
                        <= SPLIT_REST_LIMIT) {
                        Err(DebitError::OutOfRange)
                    } else {
                        Ok(
                            overlap(
                                sb.0,
                                sb.2,
                                sb.1,
                                sb.3,
                                pow10(19),
                                sd_reconstructions(xb.0, d, n, k, mode) + sd_reconstructions(
                                    xb.1,
                                    d,
                                    n,
                                    k,
                                    mode,
                                ),
                            ),
                        )
                    }
                },
            },
        }
    }
}

/// `b` is the bound `s` at `scale`.
pub open spec fn bound_is(b: UnroundReturn, s: (int, int, bool, bool), scale: nat) -> bool {
    &&& b.lower == s.0
    &&& b.upper == s.1
    &&& b.incl_lower == s.2
    &&& b.incl_upper == s.3
    &&& b.scale == scale
}

/// The table carries the inputs it was given; a verbose one also the bounds of `sd` and
/// `x` and every reconstruction, lower end's first.
pub open spec fn table_matches(t: DebitTables, x: &str, sd: &str, n: u32, rounding: Seq<char>) -> bool {
    match t {
        DebitTables::DebitTable(t) => t.sd@ == sd@ && t.x@ == x@ && t.n == n,
        DebitTables::DebitTableVerbose(t) => {
            let mode = mode_of(rounding);
            let xs = x.spec_bytes();
            let sds = sd.spec_bytes();
            let xb = unround_spec(xs, mode, sqrt_eps())->Ok_0;
            let d = pow10(frac_len(xs) + 19);
            let want = sd_reconstructions(xb.0, d, n as int, frac_len(sds), mode)
                + sd_reconstructions(xb.1, d, n as int, frac_len(sds), mode);
            &&& t.sd@ == sd@
            &&& t.x@ == x@
            &&& t.n == n
            &&& t.rounding@ == rounding
            &&& bound_is(t.sd_bound, unround_spec(sds, mode, sqrt_eps())->Ok_0, unround_scale(sds, sqrt_eps()))
            &&& bound_is(t.x_bound, xb, unround_scale(xs, sqrt_eps()))
            &&& t.reconstructions@.len() == want.len()
            &&& forall|i: int| 0 <= i < want.len() ==> t.reconstructions@[i] == want[i]
        },
    }
}

/// A bound `p` split into `split_u(p)` units of `10^18` and the rest.
fn split_bound(p: i128, e: i128) -> (r: (i128, i128))
    requires
        0 <= p <= e * 1_000_000_000_000_000_000,
        10 <= e <= 10_000_000,
    ensures
        r.0 == split_u(p as int),
        r.1 == split_v(p as int),
        0 <= r.0 <= e,
        r.0 * split_unit() + r.1 == p,
{
    let z: i128 = 1_000_000_000_000_000_000;
    let (u, rem) = div_floor(2 * p + z, 2 * z);
    proof {
        assert(u * (2 * z) <= 2 * p + z);
        assert(2 * p + z < (u + 1) * (2 * z)) by (nonlinear_arith)
            requires
                2 * p + z == u * (2 * z) + rem,
                rem < 2 * z,
        ;
        assert(0 <= u <= e) by (nonlinear_arith)
            requires
                2 * p + z == u * (2 * z) + rem,
                0 <= rem < 2 * z,
                0 <= p <= e * z,
                z > 0,
        ;
        assert(0 <= u * z <= e * z) by (nonlinear_arith)
            requires
                0 <= u <= e,
                z > 0,
        ;
    }
    (u, p - u * z)
}

/// The DEBIT test of a reported proportion `x` (the mean of binary data) and its SD `sd`
/// over a sample of `n`: whether the SD that some proportion within the bounds of `x`
/// gives, rounded as `sd` was, falls within the bounds of `sd`. Both bounds are taken with
/// the threshold `sqrt_eps()`, at one place past the literal's precision plus eighteen;
/// every value is exact. Only the formula `mean_n` works from a mean. With `show_rec`, the
/// bounds and reconstructions come back too. The mean may have at most 6 decimal places,
/// the SD at most 4, and the sample at most 2^20 members.
pub fn debit_table(
    x: &str,
    sd: &str,
    n: u32,
    formula: &str,
    rounding: &str,
    show_rec: bool,
) -> (r: Result<DebitTables, DebitError>)
    ensures
        match debit_outcome(x.spec_bytes(), sd.spec_bytes(), n as int, formula@, rounding@) {
            Err(e) => r == Err::<DebitTables, DebitError>(e),
            Ok(b) => r is Ok && r->Ok_0.verdict() == b && (r->Ok_0 is DebitTableVerbose <==> show_rec)
                && table_matches(r->Ok_0, x, sd, n, rounding@),
        },
{
    match crate::decimal::parse_decimal(x) {
        Err(_) => {
            return Err(DebitError::NotNumeric);
        },
        Ok(_) => {},
    }
    match crate::decimal::parse_decimal(sd) {
        Err(_) => {
            return Err(DebitError::NotNumeric);
        },
        Ok(_) => {},
    }
    let mode = match RoundingMode::from_name(rounding) {
        Err(_) => {
            return Err(DebitError::InvalidMode);
        },
        Ok(m) => m,
    };
    proof {
        let c = mode_of(rounding@);
        assert(mode_name(c) == rounding@);
        lemma_mode_name_injective(c, mode);
    }
    if !str_eq(formula, "mean_n") {
        return Err(DebitError::InvalidFormula);
    }
    let eps = Decimal::new(14901161193, 18);
    let xb = match unround(x, rounding, eps) {
        Err(e) => {
            return Err(DebitError::Bound(e));
        },
        Ok(b) => b,
    };
    let sb = match unround(sd, rounding, eps) {
        Err(e) => {
            return Err(DebitError::Bound(e));
        },
        Ok(b) => b,
    };
    if n < 2 {
        return Err(DebitError::InvalidSampleSize);
    }
    let dx: u32 = xb.scale - 19;
    let k: u32 = sb.scale - 19;
    if dx > 6 || k > 4 || n > 0x10_0000 {
        return Err(DebitError::OutOfRange);
    }
    proof {
        lemma_pow10_limits();
        lemma_pow10_mono((dx + 1) as nat, 7);
        lemma_pow10_mono(7, 17);
        lemma_pow10_pos((dx + 1) as nat);
        reveal_with_fuel(pow10, 8);
        assert(pow10(7) == 10_000_000);
        assert(pow10(18) == 1_000_000_000_000_000_000) by {
            crate::decimal::lemma_pow10_limits();
        }
        crate::decimal::lemma_pow10_add((dx + 1) as nat, 18);
        assert(((dx + 1) + 18) as nat == (frac_len(x.spec_bytes()) + 19) as nat);
    }
    let e = pow10_exec(dx + 1) as i128;
    let dd: i128 = e * 1_000_000_000_000_000_000;
    if xb.lower < 0 || xb.upper > dd {
        return Err(DebitError::ProportionOutOfRange);
    }
    let (ul, vl) = split_bound(xb.lower, e);
    let (uh, vh) = split_bound(xb.upper, e);
    if vl < -SPLIT_REST_LIMIT || vl > SPLIT_REST_LIMIT || vh < -SPLIT_REST_LIMIT || vh > SPLIT_REST_LIMIT {
        return Err(DebitError::OutOfRange);
    }
    let nn = n as i128;
    let rules = mode.rules();
    let ghost d = pow10((frac_len(x.spec_bytes()) + 19) as nat);
    let ghost want = sd_reconstructions(xb.lower as int, d, n as int, k as nat, mode)
        + sd_reconstructions(xb.upper as int, d, n as int, k as nat, mode);
    proof {
        assert(d == e * split_unit());
        assert(binary_var_num(xb.lower as int, d, n as int, k as nat) == split_num(ul as int, vl as int, e as int, nn as int, k as nat));
        assert(binary_var_num(xb.upper as int, d, n as int, k as nat) == split_num(uh as int, vh as int, e as int, nn as int, k as nat));
        assert(binary_var_den(d, n as int) == split_den(e as int, nn as int));
    }
    let mut recs: Vec<i128> = Vec::new();
    let mut i: usize = 0;
    while i < 2 * rules.len()
        invariant
            rules@ == mode_rules(mode),
            rules@.len() <= 2,
            want == sd_reconstructions(xb.lower as int, d, n as int, k as nat, mode)
                + sd_reconstructions(xb.upper as int, d, n as int, k as nat, mode),
            binary_var_num(xb.lower as int, d, n as int, k as nat) == split_num(ul as int, vl as int, e as int, nn as int, k as nat),
            binary_var_num(xb.upper as int, d, n as int, k as nat) == split_num(uh as int, vh as int, e as int, nn as int, k as nat),
            binary_var_den(d, n as int) == split_den(e as int, nn as int),
            split_ok(ul as int, vl as int, e as int, nn as int, k as nat),
            split_ok(uh as int, vh as int, e as int, nn as int, k as nat),
            want.len() == 2 * rules@.len(),
            i <= 2 * rules@.len(),
            recs@.len() == i,
            forall|j: int| 0 <= j < i ==> recs@[j] == want[j],
            forall|j: int| 0 <= j < i ==> 0 <= #[trigger] recs@[j] <= 10_002,
        decreases 2 * rules@.len() - i,
    {
        let q = if i < rules.len() {
            round_sqrt_split(rules[i], ul, vl, e, nn, k)
        } else {
            round_sqrt_split(rules[i - rules.len()], uh, vh, e, nn, k)
        };
        proof {
            let half = rules@.len() as int;
            if i < half {
                assert(want[i as int] == sqrt_rounded(rules@[i as int], binary_var_num(xb.lower as int, d, n as int, k as nat), binary_var_den(d, n as int), 0, 10));
            } else {
                assert(want[i as int] == sqrt_rounded(rules@[i - half], binary_var_num(xb.upper as int, d, n as int, k as nat), binary_var_den(d, n as int), 0, 10));
            }
        }
        recs.push(q);
        i = i + 1;
    }
    let sf: i128 = 10_000_000_000_000_000_000;
    proof {
        reveal_with_fuel(pow10, 20);
        assert(pow10(19) == sf);
    }
    let mut lower_found = false;
    let mut upper_found = false;
    let mut j: usize = 0;
    while j < recs.len()
        invariant
            j <= recs@.len(),
            sf == pow10(19),
            sf == 10_000_000_000_000_000_000,
            recs@.len() == want.len(),
            forall|t: int| 0 <= t < recs@.len() ==> recs@[t] == want[t],
            forall|t: int| 0 <= t < recs@.len() ==> 0 <= #[trigger] recs@[t] <= 10_002,
            lower_found ==> lower_ok(sb.lower as int, sb.incl_lower, sf as int, want),
            !lower_found ==> forall|t: int| 0 <= t < j ==> !(if sb.incl_lower {
                sb.lower <= sf * #[trigger] want[t]
            } else {
                sb.lower < sf * want[t]
            }),
            upper_found ==> upper_ok(sb.upper as int, sb.incl_upper, sf as int, want),
            !upper_found ==> forall|t: int| 0 <= t < j ==> !(if sb.incl_upper {
                sf * #[trigger] want[t] <= sb.upper
            } else {
                sf * want[t] < sb.upper
            }),
        decreases recs@.len() - j,
    {
        proof {
            assert(0 <= sf * recs@[j as int] <= 10_000_000_000_000_000_000 * 10_002) by (nonlinear_arith)
                requires
                    sf == 10_000_000_000_000_000_000,
                    0 <= recs@[j as int] <= 10_002,
            ;
        }
        let v = sf * recs[j];
        let lo_hit = if sb.incl_lower {
            sb.lower <= v
        } else {
            sb.lower < v
        };
        let up_hit = if sb.incl_upper {
            v <= sb.upper
        } else {
            v < sb.upper
        };
        proof {
            if lo_hit {
                assert(if sb.incl_lower {
                    sb.lower <= sf * want[j as int]
                } else {
                    sb.lower < sf * want[j as int]
                });
            }
            if up_hit {
                assert(if sb.incl_upper {
                    sf * want[j as int] <= sb.upper
                } else {
                    sf * want[j as int] < sb.upper
                });
            }
        }
        lower_found = lower_found || lo_hit;
        upper_found = upper_found || up_hit;
        j = j + 1;
    }
    let consistency = lower_found && upper_found;
    if show_rec {
        Ok(
            DebitTables::DebitTableVerbose(
                DebitTableVerbose {
                    sd: sd.to_owned(),
                    x: x.to_owned(),
                    n,
                    consistency,
                    rounding: rounding.to_owned(),
                    sd_bound: sb,
                    x_bound: xb,
                    reconstructions: recs,
                },
            ),
        )
    } else {
        Ok(DebitTables::DebitTable(DebitTable::new(sd.to_owned(), x.to_owned(), n, consistency)))
    }
}

/// The DEBIT verdict alone.
pub fn debit_scalar(x: &str, sd: &str, n: u32, formula: &str, rounding: &str) -> (r: Result<
    bool,
    DebitError,
>)
    ensures
        match debit_outcome(x.spec_bytes(), sd.spec_bytes(), n as int, formula@, rounding@) {
            Err(e) => r == Err::<bool, DebitError>(e),
            Ok(b) => r == Ok::<bool, DebitError>(b),
        },
{
    match debit_table(x, sd, n, formula, rounding, false) {
        Err(e) => Err(e),
        Ok(t) => Ok(t.consistency()),
    }
}

/// The overlap test of DEBIT: with no reconstruction it never passes, and an end taken
/// strictly only asks more than the same end taken inclusively.
pub proof fn lemma_overlap_laws(
    lo: int,
    incl_lo: bool,
    up: int,
    incl_up: bool,
    sf: int,
    rs: Seq<int>,
)
    ensures
        rs.len() == 0 ==> !overlap(lo, incl_lo, up, incl_up, sf, rs),
        overlap(lo, false, up, false, sf, rs) ==> overlap(lo, true, up, true, sf, rs),
        overlap(lo, incl_lo, up, incl_up, sf, rs) ==> overlap(lo, true, up, true, sf, rs),
{
    if overlap(lo, incl_lo, up, incl_up, sf, rs) {
        let i = choose|i: int|
            0 <= i < rs.len() && if incl_lo {
                lo <= sf * #[trigger] rs[i]
            } else {
                lo < sf * rs[i]
            };
        let j = choose|j: int|
            0 <= j < rs.len() && if incl_up {
                sf * #[trigger] rs[j] <= up
            } else {
                sf * rs[j] < up
            };
        assert(lo <= sf * rs[i]);
        assert(sf * rs[j] <= up);
    }
}

} // verus!
