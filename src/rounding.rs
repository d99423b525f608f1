use vstd::arithmetic::div_mod::{
    lemma_fundamental_div_mod, lemma_fundamental_div_mod_converse, lemma_mod_bound,
};
use vstd::prelude::*;
use vstd::string::StringSliceAdditionalSpecFns;
use vstd::utf8::encode_utf8_decode_utf8;

use crate::decimal::{
    lemma_pow10_limits, lemma_pow10_mono, lemma_pow10_pos, pow10, pow10_exec, Decimal, Ratio,
    MAX_LITERAL_DIGITS,
};

verus! {

/// Largest magnitude of a scaled numerator that the rounding arithmetic takes.
pub const NUMER_LIMIT: i128 = 0x10_0000_0000_0000_0000_0000_0000;

/// Largest denominator that the rounding arithmetic takes.
pub const DENOM_LIMIT: i128 = 0x100_0000_0000;

/// How a reported value was rounded. Three modes are paired: they stand for either of
/// two single modes.
#[derive(Clone, Copy, Debug, PartialEq, Eq, Structural)]
pub enum RoundingMode {
    UpOrDown,
    Up,
    Down,
    UpFrom,
    DownFrom,
    UpFromOrDownFrom,
    Ceiling,
    Floor,
    CeilingOrFloor,
    Even,
    Trunc,
    AntiTrunc,
}

#[derive(Clone, Copy, Debug, PartialEq, Eq, Structural)]
pub enum RoundingError {
    /// The name is none of the rounding modes.
    InvalidMode,
    /// A mode that rounds from a threshold was used with the default threshold 5.
    ThresholdNotSpecified,
    /// A paired mode was given together with other modes.
    MixedModes,
}

/// One way of rounding a value to a whole number.
#[derive(Clone, Copy, Debug, PartialEq, Eq, Structural)]
pub enum Rule {
    HalfUp,
    HalfDown,
    HalfEven,
    Ceiling,
    Floor,
    Trunc,
    AntiTrunc,
    UpFrom,
    DownFrom,
}

pub open spec fn mode_name(m: RoundingMode) -> Seq<char> {
    match m {
        RoundingMode::UpOrDown => "up_or_down"@,
        RoundingMode::Up => "up"@,
        RoundingMode::Down => "down"@,
        RoundingMode::UpFrom => "up_from"@,
        RoundingMode::DownFrom => "down_from"@,
        RoundingMode::UpFromOrDownFrom => "up_from_or_down_from"@,
        RoundingMode::Ceiling => "ceiling"@,
        RoundingMode::Floor => "floor"@,
        RoundingMode::CeilingOrFloor => "ceiling_or_floor"@,
        RoundingMode::Even => "even"@,
        RoundingMode::Trunc => "trunc"@,
        RoundingMode::AntiTrunc => "anti_trunc"@,
    }
}

/// The single rules that a mode stands for, in order.
pub open spec fn mode_rules(m: RoundingMode) -> Seq<Rule> {
    match m {
        RoundingMode::UpOrDown => seq![Rule::HalfUp, Rule::HalfDown],
        RoundingMode::Up => seq![Rule::HalfUp],
        RoundingMode::Down => seq![Rule::HalfDown],
        RoundingMode::UpFrom => seq![Rule::UpFrom],
        RoundingMode::DownFrom => seq![Rule::DownFrom],
        RoundingMode::UpFromOrDownFrom => seq![Rule::UpFrom, Rule::DownFrom],
        RoundingMode::Ceiling => seq![Rule::Ceiling],
        RoundingMode::Floor => seq![Rule::Floor],
        RoundingMode::CeilingOrFloor => seq![Rule::Ceiling, Rule::Floor],
        RoundingMode::Even => seq![Rule::HalfEven],
        RoundingMode::Trunc => seq![Rule::Trunc],
        RoundingMode::AntiTrunc => seq![Rule::AntiTrunc],
    }
}

pub open spec fn is_paired(m: RoundingMode) -> bool {
    m == RoundingMode::UpOrDown || m == RoundingMode::UpFromOrDownFrom || m
        == RoundingMode::CeilingOrFloor
}

pub open spec fn uses_threshold(m: RoundingMode) -> bool {
    m == RoundingMode::UpFrom || m == RoundingMode::DownFrom || m
        == RoundingMode::UpFromOrDownFrom
}

/// The threshold equals 5, its default.
pub open spec fn is_default_threshold(t: Decimal) -> bool {
    t.mantissa == 5 * pow10(t.scale as nat)
}

pub open spec fn floor_div(a: int, b: int) -> int {
    a / b
}

pub open spec fn ceil_div(a: int, b: int) -> int {
    -((-a) / b)
}

/// `10^(scale + 1)`: the denominator of a tenth of the threshold.
pub open spec fn tenth_denom(t: Decimal) -> int {
    10 * pow10(t.scale as nat)
}

/// `a/b + 1 - t/10`, rounded down: rounding up from the threshold, so that a digit past
/// the precision at or above `t` rounds up.
pub open spec fn up_from_value(a: int, b: int, t: Decimal) -> int {
    floor_div(a * tenth_denom(t) + b * (tenth_denom(t) - t.mantissa), b * tenth_denom(t))
}

/// `a/b - t/10`, rounded up: rounding down from the threshold, so that a digit past the
/// precision at or below `t` rounds down and one above it rounds up (at `t = 5`, halves go
/// down). This is `a/b + 1 - t/10` rounded up, less one.
pub open spec fn down_from_value(a: int, b: int, t: Decimal) -> int {
    ceil_div(a * tenth_denom(t) - b * t.mantissa, b * tenth_denom(t))
}

/// The whole number that `a/b` rounds to under `rule`.
pub open spec fn rounded(rule: Rule, a: int, b: int, t: Decimal, symmetric: bool) -> int {
    match rule {
        Rule::HalfUp => floor_div(2 * a + b, 2 * b),
        Rule::HalfDown => ceil_div(2 * a - b, 2 * b),
        Rule::HalfEven => {
            let f = floor_div(a, b);
            let r = a - f * b;
            if 2 * r < b {
                f
            } else if 2 * r > b {
                f + 1
            } else if f % 2 == 0 {
                f
            } else {
                f + 1
            }
        },
        Rule::Ceiling => ceil_div(a, b),
        Rule::Floor => floor_div(a, b),
        Rule::Trunc => if a >= 0 {
            floor_div(a, b)
        } else {
            ceil_div(a, b)
        },
        Rule::AntiTrunc => if a >= 0 {
            floor_div(a, b) + 1
        } else {
            -(floor_div(-a, b) + 1)
        },
        Rule::UpFrom => if symmetric && a < 0 {
            -up_from_value(-a, b, t)
        } else {
            up_from_value(a, b, t)
        },
        Rule::DownFrom => if symmetric && a < 0 {
            -down_from_value(-a, b, t)
        } else {
            down_from_value(a, b, t)
        },
    }
}

/// Two strings hold the same characters.
pub fn str_eq(a: &str, b: &str) -> (r: bool)
    ensures
        r == (a@ == b@),
{
    let x = a.as_bytes();
    let y = b.as_bytes();
    assert(x@ == a.spec_bytes());
    assert(y@ == b.spec_bytes());
    proof {
        encode_utf8_decode_utf8(a@);
        encode_utf8_decode_utf8(b@);
    }
    if x.len() != y.len() {
        return false;
    }
    let n = x.len();
    let mut i: usize = 0;
    while i < n
        invariant
            n == x@.len(),
            n == y@.len(),
            x@ == a.spec_bytes(),
            y@ == b.spec_bytes(),
            i <= n,
            forall|k: int| 0 <= k < i ==> x@[k] == y@[k],
        decreases n - i,
    {
        if x[i] != y[i] {
            assert(x@[i as int] != y@[i as int]);
            assert(x@ != y@);
            assert(a.spec_bytes() != b.spec_bytes());
            return false;
        }
        i = i + 1;
    }
    assert(x@ =~= y@);
    true
}

impl RoundingMode {
    /// The mode of the given name.
    pub fn from_name(name: &str) -> (r: Result<RoundingMode, RoundingError>)
        ensures
            match r {
                Ok(m) => mode_name(m) == name@,
                Err(e) => e == RoundingError::InvalidMode && forall|m: RoundingMode|
                    mode_name(m) != name@,
            },
    {
        if str_eq(name, "up_or_down") {
            Ok(RoundingMode::UpOrDown)
        } else if str_eq(name, "up") {
            Ok(RoundingMode::Up)
        } else if str_eq(name, "down") {
            Ok(RoundingMode::Down)
        } else if str_eq(name, "up_from") {
            Ok(RoundingMode::UpFrom)
        } else if str_eq(name, "down_from") {
            Ok(RoundingMode::DownFrom)
        } else if str_eq(name, "up_from_or_down_from") {
            Ok(RoundingMode::UpFromOrDownFrom)
        } else if str_eq(name, "ceiling") {
            Ok(RoundingMode::Ceiling)
        } else if str_eq(name, "floor") {
            Ok(RoundingMode::Floor)
        } else if str_eq(name, "ceiling_or_floor") {
            Ok(RoundingMode::CeilingOrFloor)
        } else if str_eq(name, "even") {
            Ok(RoundingMode::Even)
        } else if str_eq(name, "trunc") {
            Ok(RoundingMode::Trunc)
        } else if str_eq(name, "anti_trunc") {
            Ok(RoundingMode::AntiTrunc)
        } else {
            Err(RoundingError::InvalidMode)
        }
    }

    /// The mode stands for two single modes.
    pub fn is_paired(&self) -> (r: bool)
        ensures
            r == is_paired(*self),
    {
        match self {
            RoundingMode::UpOrDown | RoundingMode::UpFromOrDownFrom
            | RoundingMode::CeilingOrFloor => true,
            _ => false,
        }
    }

    /// The mode rounds from a threshold.
    pub fn uses_threshold(&self) -> (r: bool)
        ensures
            r == uses_threshold(*self),
    {
        match self {
            RoundingMode::UpFrom | RoundingMode::DownFrom | RoundingMode::UpFromOrDownFrom => true,
            _ => false,
        }
    }

    /// The single rules of the mode.
    pub fn rules(&self) -> (r: Vec<Rule>)
        ensures
            r@ == mode_rules(*self),
    {
        let r = match self {
            RoundingMode::UpOrDown => vec![Rule::HalfUp, Rule::HalfDown],
            RoundingMode::Up => vec![Rule::HalfUp],
            RoundingMode::Down => vec![Rule::HalfDown],
            RoundingMode::UpFrom => vec![Rule::UpFrom],
            RoundingMode::DownFrom => vec![Rule::DownFrom],
            RoundingMode::UpFromOrDownFrom => vec![Rule::UpFrom, Rule::DownFrom],
            RoundingMode::Ceiling => vec![Rule::Ceiling],
            RoundingMode::Floor => vec![Rule::Floor],
            RoundingMode::CeilingOrFloor => vec![Rule::Ceiling, Rule::Floor],
            RoundingMode::Even => vec![Rule::HalfEven],
            RoundingMode::Trunc => vec![Rule::Trunc],
            RoundingMode::AntiTrunc => vec![Rule::AntiTrunc],
        };
        assert(r@ =~= mode_rules(*self));
        r
    }
}

/// The message for a paired mode `bad` given among other modes, naming the single modes
/// `good1` and `good2` to give in its place.
pub open spec fn mixed_message(bad: Seq<char>, good1: Seq<char>, good2: Seq<char>) -> Seq<char> {
    "If rounding has length > 1, only single rounding procedures are supported, such as "@ + good1
        + " and "@ + good2 + ". Instead, rounding was given as "@ + bad
        + " plus others. You can still concatenate multiple of them; just leave out those with or."@
}

/// Checks that the paired mode `bad` is not among the rounding names, as a list of more
/// than one name requires. The error message names `bad` and the single modes `good1` and
/// `good2` to give in its place.
pub fn check_rounding_singular(rounding: Vec<&str>, bad: &str, good1: &str, good2: &str) -> (r:
    Result<(), String>)
    ensures
        r is Ok <==> !(exists|i: int| 0 <= i < rounding@.len() && rounding@[i]@ == bad@),
        r is Err ==> r->Err_0@ == mixed_message(bad@, good1@, good2@),
{
    let n = rounding.len();
    let mut i: usize = 0;
    while i < n
        invariant
            n == rounding@.len(),
            i <= n,
            forall|k: int| 0 <= k < i ==> rounding@[k]@ != bad@,
        decreases n - i,
    {
        if str_eq(rounding[i], bad) {
            let mut msg = String::from_str(
                "If rounding has length > 1, only single rounding procedures are supported, such as ",
            );
            msg.append(good1);
            msg.append(" and ");
            msg.append(good2);
            msg.append(". Instead, rounding was given as ");
            msg.append(bad);
            msg.append(
                " plus others. You can still concatenate multiple of them; just leave out those with or.",
            );
            return Err(msg);
        }
        i = i + 1;
    }
    Ok(())
}

/// A list of modes may hold a paired mode only where it is the only mode.
pub fn check_modes(modes: &Vec<RoundingMode>) -> (r: Result<(), RoundingError>)
    ensures
        r is Ok <==> (modes@.len() <= 1 || forall|i: int|
            0 <= i < modes@.len() ==> !is_paired(#[trigger] modes@[i])),
        r is Err ==> r->Err_0 == RoundingError::MixedModes,
{
    if modes.len() <= 1 {
        return Ok(());
    }
    let n = modes.len();
    let mut i: usize = 0;
    while i < n
        invariant
            n == modes@.len(),
            n > 1,
            i <= n,
            forall|k: int| 0 <= k < i ==> !is_paired(#[trigger] modes@[k]),
        decreases n - i,
    {
        if modes[i].is_paired() {
            assert(is_paired(modes@[i as int]));
            return Err(RoundingError::MixedModes);
        }
        i = i + 1;
    }
    Ok(())
}


/// `a == q * b + r` with `0 <= r < b` pins down the quotient `a / b`.
proof fn lemma_quotient(a: int, b: int, q: int, r: int)
    requires
        b > 0,
        0 <= r < b,
        a == q * b + r,
    ensures
        floor_div(a, b) == q,
        a % b == r,
{
    lemma_fundamental_div_mod_converse(a, b, q, r);
}

/// Quotient and remainder of a division by a positive number.
proof fn lemma_div_parts(x: int, c: int)
    requires
        c > 0,
    ensures
        x == (x / c) * c + x % c,
        0 <= x % c < c,
{
    lemma_fundamental_div_mod(x, c);
    lemma_mod_bound(x, c);
    assert(c * (x / c) == (x / c) * c) by (nonlinear_arith);
}

/// A quotient is no larger in size than the bound that the dividend has in multiples of
/// the divisor.
proof fn lemma_quotient_bound(x: int, c: int, k: int)
    requires
        c > 0,
        k >= 0,
        -k * c <= x <= k * c,
    ensures
        -k - 1 <= floor_div(x, c) <= k,
        -k <= ceil_div(x, c) <= k + 1,
{
    lemma_div_parts(x, c);
    let g = x / c;
    assert(-k - 1 <= g <= k) by (nonlinear_arith)
        requires
            c > 0,
            x == g * c + x % c,
            0 <= x % c < c,
            -k * c <= x <= k * c,
    ;
    lemma_div_parts(-x, c);
    let h = (-x) / c;
    assert(-k * c <= -x <= k * c) by (nonlinear_arith)
        requires
            -k * c <= x <= k * c,
    ;
    assert(-k - 1 <= h <= k) by (nonlinear_arith)
        requires
            c > 0,
            -x == h * c + (-x) % c,
            0 <= (-x) % c < c,
            -k * c <= -x <= k * c,
    ;
}

/// Whole multiples of the divisor pass through a rounded-down quotient.
proof fn lemma_floor_shift(f: int, x: int, c: int)
    requires
        c > 0,
    ensures
        floor_div(f * c + x, c) == f + floor_div(x, c),
        ceil_div(f * c + x, c) == f + ceil_div(x, c),
{
    lemma_div_parts(x, c);
    let q = x / c;
    let r = x % c;
    assert((f + q) * c == f * c + q * c) by (nonlinear_arith);
    lemma_quotient(f * c + x, c, f + q, r);
    lemma_div_parts(-x, c);
    let q2 = (-x) / c;
    let r2 = (-x) % c;
    assert((-f + q2) * c == -(f * c) + q2 * c) by (nonlinear_arith);
    lemma_quotient(-(f * c + x), c, -f + q2, r2);
}

/// Floor division with remainder: `a == q * b + r`, `0 <= r < b`.
pub(crate) fn div_floor(a: i128, b: i128) -> (res: (i128, i128))
    requires
        b > 0,
        a > i128::MIN,
    ensures
        res.0 == floor_div(a as int, b as int),
        a == res.0 * b + res.1,
        0 <= res.1 < b,
        a >= 0 ==> 0 <= res.0 <= a,
        a < 0 ==> a <= res.0 < 0,
{
    if a >= 0 {
        let q = a / b;
        let r = a % b;
        proof {
            lemma_div_parts(a as int, b as int);
            assert(q * b >= q) by (nonlinear_arith)
                requires
                    q >= 0,
                    b >= 1,
            ;
        }
        (q, r)
    } else {
        let na: i128 = -a;
        let q0 = na / b;
        let r0 = na % b;
        proof {
            lemma_div_parts(na as int, b as int);
            assert(q0 * b >= q0) by (nonlinear_arith)
                requires
                    q0 >= 0,
                    b >= 1,
            ;
        }
        if r0 == 0 {
            proof {
                assert(a == (-q0) * b + 0) by (nonlinear_arith)
                    requires
                        na == q0 * b,
                        a == -na,
                ;
                lemma_quotient(a as int, b as int, -q0, 0);
                assert(q0 > 0) by (nonlinear_arith)
                    requires
                        na == q0 * b,
                        na > 0,
                        b > 0,
                ;
            }
            (-q0, 0)
        } else {
            proof {
                assert(a == (-q0 - 1) * b + (b - r0)) by (nonlinear_arith)
                    requires
                        na == q0 * b + r0,
                        a == -na,
                ;
                lemma_quotient(a as int, b as int, -q0 - 1, b - r0);
            }
            (-q0 - 1, b - r0)
        }
    }
}

/// Ceiling division: the least whole number at or above `a / b`.
pub(crate) fn div_ceil(a: i128, b: i128) -> (q: i128)
    requires
        b > 0,
        a > i128::MIN,
    ensures
        q == ceil_div(a as int, b as int),
        a >= 0 ==> 0 <= q <= a,
        a < 0 ==> a <= q <= 0,
{
    let (f, r) = div_floor(a, b);
    proof {
        assert(-(a as int) == (-f) * b - r) by (nonlinear_arith)
            requires
                a == f * b + r,
        ;
        if r == 0 {
            lemma_quotient(-(a as int), b as int, -f, 0);
        } else {
            assert(-(a as int) == (-f - 1) * b + (b - r)) by (nonlinear_arith)
                requires
                    a == f * b + r,
            ;
            lemma_quotient(-(a as int), b as int, -f - 1, b - r);
            if a >= 0 {
                assert(f * b >= f) by (nonlinear_arith)
                    requires
                        f >= 0,
                        b >= 1,
                ;
            }
        }
    }
    if r == 0 {
        f
    } else {
        f + 1
    }
}

proof fn lemma_half_up(a: int, b: int, f: int, r: int)
    requires
        b > 0,
        0 <= r < b,
        a == f * b + r,
    ensures
        floor_div(2 * a + b, 2 * b) == if 2 * r >= b {
            f + 1
        } else {
            f
        },
{
    assert(f * (2 * b) == 2 * (f * b)) by (nonlinear_arith);
    assert((f + 1) * (2 * b) == 2 * (f * b) + 2 * b) by (nonlinear_arith);
    if 2 * r >= b {
        lemma_quotient(2 * a + b, 2 * b, f + 1, 2 * r - b);
    } else {
        lemma_quotient(2 * a + b, 2 * b, f, 2 * r + b);
    }
}

proof fn lemma_half_down(a: int, b: int, f: int, r: int)
    requires
        b > 0,
        0 <= r < b,
        a == f * b + r,
    ensures
        ceil_div(2 * a - b, 2 * b) == if 2 * r > b {
            f + 1
        } else {
            f
        },
{
    assert((-f) * (2 * b) == -2 * (f * b)) by (nonlinear_arith);
    assert((-f - 1) * (2 * b) == -2 * (f * b) - 2 * b) by (nonlinear_arith);
    if 2 * r > b {
        lemma_quotient(-(2 * a - b), 2 * b, -f - 1, 3 * b - 2 * r);
    } else {
        lemma_quotient(-(2 * a - b), 2 * b, -f, b - 2 * r);
    }
}

/// Largest denominator that the rounding arithmetic takes.
pub const WIDE_DENOM_LIMIT: i128 = 0x1_0000_0000_0000_0000_0000;

/// Largest spread `b (2 * 10^(scale + 1) + |mantissa|)` of a denominator and a threshold
/// that rounding from the threshold takes.
pub const SPREAD_LIMIT: i128 = 0x2000_0000_0000_0000_0000_0000_0000_0000;

pub open spec fn abs_int(v: int) -> int {
    if v < 0 {
        -v
    } else {
        v
    }
}

/// `a/b` with `|a| <= NUMER_LIMIT` and `0 < b <= WIDE_DENOM_LIMIT`, with a valid threshold.
pub open spec fn rounding_args_ok(a: int, b: int, t: Decimal) -> bool {
    &&& 0 < b <= WIDE_DENOM_LIMIT
    &&& -NUMER_LIMIT <= a <= NUMER_LIMIT
    &&& t.wf()
}

/// Rounding from the threshold `t` over the denominator `b` stays within the arithmetic.
pub open spec fn spread_ok(b: int, t: Decimal) -> bool {
    b * (2 * tenth_denom(t) + abs_int(t.mantissa as int)) <= SPREAD_LIMIT
}

/// Any valid threshold fits a denominator of at most `DENOM_LIMIT`.
pub proof fn lemma_narrow_spread(b: int, t: Decimal)
    requires
        0 < b <= DENOM_LIMIT,
        t.wf(),
    ensures
        spread_ok(b, t),
{
    lemma_pow10_mono(t.scale as nat, 18);
    lemma_pow10_limits();
    let w = 2 * tenth_denom(t) + abs_int(t.mantissa as int);
    lemma_pow10_pos(t.scale as nat);
    assert(tenth_denom(t) <= 10_000_000_000_000_000_000);
    assert(abs_int(t.mantissa as int) <= 0x8000_0000_0000_0000);
    assert(0 <= w <= 0x4_0000_0000_0000_0000);
    assert(b * w <= 0x100_0000_0000 * 0x4_0000_0000_0000_0000) by (nonlinear_arith)
        requires
            0 < b <= 0x100_0000_0000,
            0 <= w <= 0x4_0000_0000_0000_0000,
    ;
}

/// Rounds `a/b` to a whole number at or beyond the threshold: `a/b + 1 - t/10` rounded
/// down for `up`, `a/b - t/10` rounded up otherwise.
fn round_from(a: i128, b: i128, t: Decimal, up: bool) -> (q: i128)
    requires
        rounding_args_ok(a as int, b as int, t),
        spread_ok(b as int, t),
    ensures
        up ==> q == up_from_value(a as int, b as int, t),
        !up ==> q == down_from_value(a as int, b as int, t),
        -2 * NUMER_LIMIT <= q <= 2 * NUMER_LIMIT,
{
    let (f, r) = div_floor(a, b);
    proof {
        lemma_pow10_mono(t.scale as nat, 18);
        lemma_pow10_limits();
        lemma_pow10_pos(t.scale as nat);
    }
    let d: i128 = 10 * (pow10_exec(t.scale) as i128);
    let tm: i128 = t.mantissa as i128;
    proof {
        let at = abs_int(tm as int);
        assert(d >= 10);
        let bd = b * d;
        let bat = b * at;
        let btm = b * tm;
        let rd = r * d;
        let bigp = b * (2 * d + at);
        assert(bigp <= SPREAD_LIMIT);
        assert(bigp == 2 * bd + bat) by (nonlinear_arith)
            requires
                bigp == b * (2 * d + at),
                bd == b * d,
                bat == b * at,
        ;
        assert(0 <= rd <= bd && bd > 0) by (nonlinear_arith)
            requires
                0 <= r < b,
                d > 0,
                rd == r * d,
                bd == b * d,
        ;
        assert(0 <= bat && -bat <= btm <= bat) by (nonlinear_arith)
            requires
                b > 0,
                -at <= tm <= at,
                bat == b * at,
                btm == b * tm,
        ;
        assert(b * (d - tm) == bd - btm) by (nonlinear_arith)
            requires
                bd == b * d,
                btm == b * tm,
        ;
        assert(a * d + b * (d - tm) == f * (b * d) + (r * d + b * (d - tm))) by (nonlinear_arith)
            requires
                a == f * b + r,
        ;
        assert(a * d - b * tm == f * (b * d) + (r * d - b * tm)) by (nonlinear_arith)
            requires
                a == f * b + r,
        ;
        lemma_floor_shift(f as int, r * d + b * (d - tm), b * d);
        lemma_floor_shift(f as int, r * d - b * tm, b * d);
        let k: int = 2 + at;
        assert(bigp <= k * bd) by (nonlinear_arith)
            requires
                b > 0,
                d >= 1,
                at >= 0,
                k == 2 + at,
                bd == b * d,
                bat == b * at,
                bigp == 2 * bd + bat,
        ;
        assert(-k * bd <= -bigp) by (nonlinear_arith)
            requires
                bigp <= k * bd,
        ;
        assert(-k * (b * d) <= r * d + b * (d - tm) <= k * (b * d));
        assert(-k * (b * d) <= r * d - b * tm <= k * (b * d));
        lemma_quotient_bound(r * d + b * (d - tm), b * d, k);
        lemma_quotient_bound(r * d - b * tm, b * d, k);
        assert(at <= 0x8000_0000_0000_0000);
    }
    let g = if up {
        div_floor(r * d + b * (d - tm), b * d).0
    } else {
        div_ceil(r * d - b * tm, b * d)
    };
    f + g
}

/// The whole number that `a/b` rounds to under `rule`.
pub fn round_rule(rule: Rule, a: i128, b: i128, t: Decimal, symmetric: bool) -> (q: i128)
    requires
        rounding_args_ok(a as int, b as int, t),
        rule == Rule::UpFrom || rule == Rule::DownFrom ==> spread_ok(b as int, t),
    ensures
        q == rounded(rule, a as int, b as int, t, symmetric),
        -2 * NUMER_LIMIT <= q <= 2 * NUMER_LIMIT,
{
    match rule {
        Rule::HalfUp => {
            let (f, r) = div_floor(a, b);
            proof {
                lemma_half_up(a as int, b as int, f as int, r as int);
            }
            if 2 * r >= b {
                f + 1
            } else {
                f
            }
        },
        Rule::HalfDown => {
            let (f, r) = div_floor(a, b);
            proof {
                lemma_half_down(a as int, b as int, f as int, r as int);
            }
            if 2 * r > b {
                f + 1
            } else {
                f
            }
        },
        Rule::HalfEven => {
            let (f, r) = div_floor(a, b);
            if 2 * r < b {
                f
            } else if 2 * r > b {
                f + 1
            } else if f % 2 == 0 {
                f
            } else {
                f + 1
            }
        },
        Rule::Ceiling => div_ceil(a, b),
        Rule::Floor => div_floor(a, b).0,
        Rule::Trunc => if a >= 0 {
            div_floor(a, b).0
        } else {
            div_ceil(a, b)
        },
        Rule::AntiTrunc => if a >= 0 {
            div_floor(a, b).0 + 1
        } else {
            -(div_floor(-a, b).0 + 1)
        },
        Rule::UpFrom => if symmetric && a < 0 {
            -round_from(-a, b, t, true)
        } else {
            round_from(a, b, t, true)
        },
        Rule::DownFrom => if symmetric && a < 0 {
            -round_from(-a, b, t, false)
        } else {
            round_from(a, b, t, false)
        },
    }
}

/// What `num/den` becomes under `mode` at `digits` decimal places: one mantissa at scale
/// `digits` for each single rule of the mode.
pub open spec fn reround_spec(
    num: int,
    den: int,
    digits: nat,
    mode: RoundingMode,
    t: Decimal,
    symmetric: bool,
) -> Seq<int> {
    reround_scaled_spec(num * pow10(digits), den, mode, t, symmetric)
}

/// The whole numbers that `a/b` rounds to under `mode`, one for each of its single rules.
pub open spec fn reround_scaled_spec(
    a: int,
    b: int,
    mode: RoundingMode,
    t: Decimal,
    symmetric: bool,
) -> Seq<int> {
    mode_rules(mode).map_values(|rule: Rule| rounded(rule, a, b, t, symmetric))
}

/// Where `reround` can compute exactly: the scaled numerator and the denominator stay
/// within the arithmetic's limits.
pub open spec fn reround_args_ok(num: int, den: int, digits: nat, t: Decimal) -> bool {
    &&& digits <= MAX_LITERAL_DIGITS
    &&& 0 < den <= DENOM_LIMIT
    &&& -NUMER_LIMIT <= num * pow10(digits) <= NUMER_LIMIT
    &&& t.wf()
}

/// The threshold is 5, the default, computed.
pub fn is_default_threshold_exec(t: Decimal) -> (r: bool)
    requires
        t.wf(),
    ensures
        r == is_default_threshold(t),
{
    proof {
        lemma_pow10_mono(t.scale as nat, 18);
        lemma_pow10_limits();
        lemma_pow10_pos(t.scale as nat);
    }
    t.mantissa as i128 == 5 * (pow10_exec(t.scale) as i128)
}

/// Rounds `a/b` to whole numbers under `mode`: one for each single rule of the mode, two
/// for a paired mode. A mode that rounds from a threshold refuses the default threshold 5.
pub fn reround_scaled(a: i128, b: i128, mode: RoundingMode, threshold: Decimal, symmetric: bool) -> (r:
    Result<Vec<i128>, RoundingError>)
    requires
        rounding_args_ok(a as int, b as int, threshold),
        uses_threshold(mode) ==> spread_ok(b as int, threshold),
    ensures
        r is Err <==> uses_threshold(mode) && is_default_threshold(threshold),
        r is Err ==> r->Err_0 == RoundingError::ThresholdNotSpecified,
        r is Ok ==> {
            let want = reround_scaled_spec(a as int, b as int, mode, threshold, symmetric);
            &&& r->Ok_0@.len() == want.len()
            &&& forall|i: int| 0 <= i < want.len() ==> r->Ok_0@[i] == want[i]
            &&& forall|i: int| 0 <= i < want.len() ==> -2 * NUMER_LIMIT <= #[trigger] r->Ok_0@[i] <= 2 * NUMER_LIMIT
        },
{
    if mode.uses_threshold() && is_default_threshold_exec(threshold) {
        return Err(RoundingError::ThresholdNotSpecified);
    }
    let rules = mode.rules();
    let ghost want = reround_scaled_spec(a as int, b as int, mode, threshold, symmetric);
    let mut out: Vec<i128> = Vec::new();
    let mut i: usize = 0;
    while i < rules.len()
        invariant
            rules@ == mode_rules(mode),
            want == reround_scaled_spec(a as int, b as int, mode, threshold, symmetric),
            rounding_args_ok(a as int, b as int, threshold),
            uses_threshold(mode) ==> spread_ok(b as int, threshold),
            i <= rules@.len(),
            out@.len() == i,
            forall|k: int| 0 <= k < i ==> out@[k] == want[k],
            forall|k: int| 0 <= k < i ==> -2 * NUMER_LIMIT <= #[trigger] out@[k] <= 2 * NUMER_LIMIT,
        decreases rules@.len() - i,
    {
        let q = round_rule(rules[i], a, b, threshold, symmetric);
        out.push(q);
        i = i + 1;
    }
    Ok(out)
}

/// Rounds `x` to `digits` decimal places under `mode`: a mantissa at scale `digits` for
/// each single rule of the mode, two for a paired mode. A mode that rounds from a
/// threshold refuses the default threshold 5.
pub fn reround(x: Ratio, digits: u32, mode: RoundingMode, threshold: Decimal, symmetric: bool) -> (r:
    Result<Vec<i128>, RoundingError>)
    requires
        reround_args_ok(x.numer as int, x.denom as int, digits as nat, threshold),
    ensures
        r is Err <==> uses_threshold(mode) && is_default_threshold(threshold),
        r is Err ==> r->Err_0 == RoundingError::ThresholdNotSpecified,
        r is Ok ==> {
            let want = reround_spec(x.numer as int, x.denom as int, digits as nat, mode, threshold, symmetric);
            &&& r->Ok_0@.len() == want.len()
            &&& forall|i: int| 0 <= i < want.len() ==> r->Ok_0@[i] == want[i]
            &&& forall|i: int| 0 <= i < want.len() ==> -2 * NUMER_LIMIT <= #[trigger] r->Ok_0@[i] <= 2 * NUMER_LIMIT
        },
{
    proof {
        lemma_pow10_mono(digits as nat, 18);
        lemma_pow10_limits();
        lemma_narrow_spread(x.denom as int, threshold);
    }
    let a: i128 = x.numer * (pow10_exec(digits) as i128);
    reround_scaled(a, x.denom, mode, threshold, symmetric)
}

/// Rounding a value that already has exactly `digits` decimal places to even at `digits`
/// places gives the value back.
pub proof fn lemma_reround_even_round_trip(m: int, digits: nat, t: Decimal, symmetric: bool)
    ensures
        reround_spec(m, pow10(digits), digits, RoundingMode::Even, t, symmetric) =~= seq![m],
{
    lemma_pow10_pos(digits);
    let p = pow10(digits);
    lemma_quotient(m * p, p, m, 0);
    assert(rounded(Rule::HalfEven, m * p, p, t, symmetric) == m);
}

} // verus!
