use vstd::prelude::*;

use crate::decimal::pow10;
use crate::rounding::{div_floor, floor_div, Rule};

verus! {

/// Largest numerator that the square-root rounding takes.
pub const SQRT_NUMER_LIMIT: i128 = 0x10_0000_0000_0000_0000_0000_0000;

/// Largest denominator that the square-root rounding takes.
pub const SQRT_DENOM_LIMIT: i128 = 0x1000_0000_0000_0000;

/// Largest quotient `a / b` that the square-root rounding takes.
pub const SQRT_VALUE_LIMIT: i128 = 0x400_0000_0000_0000;

/// `f` is the whole part of `sqrt(a / b)`.
pub open spec fn is_floor_sqrt(f: int, a: int, b: int) -> bool {
    f >= 0 && f * f * b <= a && a < (f + 1) * (f + 1) * b
}

/// The whole part of `sqrt(a / b)`.
pub open spec fn floor_sqrt(a: int, b: int) -> int {
    choose|f: int| is_floor_sqrt(f, a, b)
}

/// The whole number that `sqrt(a / b)` rounds to under `rule`; a rule that rounds from a
/// threshold rounds up from the fraction `t / d` past the whole part (a tenth of the
/// threshold). Each case compares the root with its whole part plus a fraction, by squares.
pub open spec fn sqrt_rounded(rule: Rule, a: int, b: int, t: int, d: int) -> int {
    let f = floor_sqrt(a, b);
    let half = (2 * f + 1) * (2 * f + 1) * b;
    let from = (f * d + t) * (f * d + t) * b;
    match rule {
        Rule::Floor => f,
        Rule::Trunc => f,
        Rule::Ceiling => if f * f * b == a {
            f
        } else {
            f + 1
        },
        Rule::AntiTrunc => f + 1,
        Rule::HalfUp => if half <= 4 * a {
            f + 1
        } else {
            f
        },
        Rule::HalfDown => if half < 4 * a {
            f + 1
        } else {
            f
        },
        Rule::HalfEven => if half < 4 * a {
            f + 1
        } else if half == 4 * a && f % 2 == 1 {
            f + 1
        } else {
            f
        },
        Rule::UpFrom => if from <= d * d * a {
            f + 1
        } else {
            f
        },
        Rule::DownFrom => if from < d * d * a {
            f + 1
        } else {
            f
        },
    }
}

/// The square root's whole part has one value.
pub(crate) proof fn lemma_floor_sqrt_unique(f: int, g: int, a: int, b: int)
    requires
        b > 0,
        is_floor_sqrt(f, a, b),
        is_floor_sqrt(g, a, b),
    ensures
        f == g,
{
    if f < g {
        assert((f + 1) * (f + 1) * b <= g * g * b) by (nonlinear_arith)
            requires
                0 <= f + 1 <= g,
                b > 0,
        ;
    }
    if g < f {
        assert((g + 1) * (g + 1) * b <= f * f * b) by (nonlinear_arith)
            requires
                0 <= g + 1 <= f,
                b > 0,
        ;
    }
}

/// Whole square root of `w`: the `f` with `f * f <= w < (f + 1) * (f + 1)`.
fn isqrt(w: i128) -> (f: i128)
    requires
        0 <= w < SQRT_VALUE_LIMIT,
    ensures
        0 <= f <= 0x2000_0000,
        f * f <= w < (f + 1) * (f + 1),
{
    let mut lo: i128 = 0;
    let mut hi: i128 = 0x2000_0000;
    assert(hi * hi == SQRT_VALUE_LIMIT);
    while hi - lo > 1
        invariant
            0 <= lo < hi <= 0x2000_0000,
            0 <= w < SQRT_VALUE_LIMIT,
            lo * lo <= w < hi * hi,
        decreases hi - lo,
    {
        let mid = lo + (hi - lo) / 2;
        proof {
            assert(0 <= mid * mid <= 0x2000_0000 * 0x2000_0000) by (nonlinear_arith)
                requires
                    0 <= mid <= 0x2000_0000,
            ;
        }
        if mid * mid <= w {
            lo = mid;
        } else {
            hi = mid;
        }
    }
    lo
}

/// `sqrt(a / b)` rounded to a whole number under `rule`, where the rules that round from a
/// threshold do so from the fraction `t / d`.
pub fn round_sqrt(rule: Rule, a: i128, b: i128, t: i128, d: i128) -> (q: i128)
    requires
        0 <= a <= SQRT_NUMER_LIMIT,
        0 < b <= SQRT_DENOM_LIMIT,
        floor_div(a as int, b as int) < SQRT_VALUE_LIMIT,
        10 <= d <= 10_000,
        0 <= t < d,
        d * d * b <= 0x10_0000_0000_0000_0000,
    ensures
        q == sqrt_rounded(rule, a as int, b as int, t as int, d as int),
        0 <= q <= 0x2000_0001,
{
    let (w, rem) = div_floor(a, b);
    let f = isqrt(w);
    proof {
        assert(f * f * b <= a && a < (f + 1) * (f + 1) * b) by (nonlinear_arith)
            requires
                a == w * b + rem,
                0 <= rem < b,
                f * f <= w,
                w < (f + 1) * (f + 1),
                b > 0,
        {
            assert(f * f * b <= w * b) by (nonlinear_arith)
                requires
                    f * f <= w,
                    b > 0,
            ;
            assert((w + 1) * b <= (f + 1) * (f + 1) * b) by (nonlinear_arith)
                requires
                    w + 1 <= (f + 1) * (f + 1),
                    b > 0,
            ;
        }
        let g = floor_sqrt(a as int, b as int);
        assert(is_floor_sqrt(f as int, a as int, b as int));
        lemma_floor_sqrt_unique(f as int, g, a as int, b as int);
        assert(0 <= f * f * b <= 0x2000_0000 * 0x2000_0000 * 0x1000_0000_0000_0000) by (nonlinear_arith)
            requires
                0 <= f <= 0x2000_0000,
                0 < b <= 0x1000_0000_0000_0000,
        ;
        assert(0 <= (2 * f + 1) * (2 * f + 1) <= 0x4000_0001 * 0x4000_0001) by (nonlinear_arith)
            requires
                0 <= f <= 0x2000_0000,
        ;
        assert(0 <= f * d + t <= 0x2000_0001 * d) by (nonlinear_arith)
            requires
                0 <= f <= 0x2000_0000,
                0 <= t < d,
        ;
        assert(0 <= (f * d + t) * (f * d + t) <= 0x2000_0001 * 0x2000_0001 * (d * d)) by (nonlinear_arith)
            requires
                0 <= f * d + t <= 0x2000_0001 * d,
                d >= 0,
        ;
        assert((f * d + t) * (f * d + t) <= 0x2000_0001 * 0x2000_0001 * 100_000_000) by (nonlinear_arith)
            requires
                0 <= (f * d + t) * (f * d + t) <= 0x2000_0001 * 0x2000_0001 * (d * d),
                10 <= d <= 10_000,
        ;
        assert(0 <= d * d * a <= 10_000 * 10_000 * SQRT_NUMER_LIMIT) by (nonlinear_arith)
            requires
                10 <= d <= 10_000,
                0 <= a <= SQRT_NUMER_LIMIT,
        ;
        assert(0 <= d * d <= 10_000 * 10_000) by (nonlinear_arith)
            requires
                10 <= d <= 10_000,
        ;
        assert(0 <= (2 * f + 1) * (2 * f + 1) * b <= 0x4000_0001 * 0x4000_0001
            * 0x1000_0000_0000_0000) by (nonlinear_arith)
            requires
                0 <= f <= 0x2000_0000,
                0 < b <= 0x1000_0000_0000_0000,
        ;
        assert(0 <= (f * d + t) * (f * d + t) * b <= 0x2000_0001 * 0x2000_0001
            * 0x10_0000_0000_0000_0000) by (nonlinear_arith)
            requires
                0 <= (f * d + t) * (f * d + t) <= 0x2000_0001 * 0x2000_0001 * (d * d),
                d * d * b <= 0x10_0000_0000_0000_0000,
                0 < b,
        ;
    }
    match rule {
        Rule::Floor | Rule::Trunc => f,
        Rule::Ceiling => if f * f * b == a {
            f
        } else {
            f + 1
        },
        Rule::AntiTrunc => f + 1,
        Rule::HalfUp => if (2 * f + 1) * (2 * f + 1) * b <= 4 * a {
            f + 1
        } else {
            f
        },
        Rule::HalfDown => if (2 * f + 1) * (2 * f + 1) * b < 4 * a {
            f + 1
        } else {
            f
        },
        Rule::HalfEven => {
            let half = (2 * f + 1) * (2 * f + 1) * b;
            if half < 4 * a {
                f + 1
            } else if half == 4 * a && f % 2 == 1 {
                f + 1
            } else {
                f
            }
        },
        Rule::UpFrom => if (f * d + t) * (f * d + t) * b <= d * d * a {
            f + 1
        } else {
            f
        },
        Rule::DownFrom => if (f * d + t) * (f * d + t) * b < d * d * a {
            f + 1
        } else {
            f
        },
    }
}

/// The unit `Z = 10^18` by which a proportion's bound is split.
pub open spec fn split_unit() -> int {
    1_000_000_000_000_000_000
}

pub open spec fn sgn(v: int) -> int {
    if v > 0 {
        1
    } else if v < 0 {
        -1
    } else {
        0
    }
}

/// Numerator of the squared SD, at `k` places, of binary data over `n` values whose
/// proportion is `(u Z + v) / (e Z)`.
pub open spec fn split_num(u: int, v: int, e: int, n: int, k: nat) -> int {
    n * (u * split_unit() + v) * (e * split_unit() - (u * split_unit() + v)) * pow10(2 * k)
}

/// Denominator of that squared SD: `(n - 1) (e Z)^2`.
pub open spec fn split_den(e: int, n: int) -> int {
    (n - 1) * (e * split_unit()) * (e * split_unit())
}

/// The arguments a split proportion needs for exact comparisons.
pub open spec fn split_ok(u: int, v: int, e: int, n: int, k: nat) -> bool {
    &&& 0 <= u <= e
    &&& 10 <= e <= 10_000_000
    &&& -0x8_0000_0000 <= v <= 0x8_0000_0000
    &&& 0 <= u * split_unit() + v <= e * split_unit()
    &&& 2 <= n <= 0x10_0000
    &&& k <= 4
}

proof fn lemma_split_identity(u: int, v: int, e: int, n: int, p: int, cn: int, cd: int, z: int)
    ensures
        cd * (n * (u * z + v) * (e * z - (u * z + v)) * p) - cn * ((n - 1) * (e * z) * (e * z)) == z
            * z * (cd * n * p * (u * (e - u)) - cn * (n - 1) * (e * e)) + z * (cd * n * p * (v * (e
            - 2 * u))) - cd * n * p * (v * v),
{
    let pp = u * z + v;
    let dd = e * z;
    let x = pp * (dd - pp);
    let g = e - u;
    assert(dd - pp == g * z - v) by (nonlinear_arith)
        requires
            pp == u * z + v,
            dd == e * z,
            g == e - u,
    ;
    let gz = g * z;
    assert(pp * (gz - v) == pp * gz - pp * v) by (nonlinear_arith);
    assert(pp * gz == u * z * gz + v * gz) by (nonlinear_arith)
        requires
            pp == u * z + v,
    ;
    assert(pp * v == u * z * v + v * v) by (nonlinear_arith)
        requires
            pp == u * z + v,
    ;
    assert(u * z * gz == u * g * (z * z)) by (nonlinear_arith)
        requires
            gz == g * z,
    ;
    assert(v * gz == v * g * z) by (nonlinear_arith)
        requires
            gz == g * z,
    ;
    assert(pp * (g * z - v) == u * g * (z * z) + v * g * z - u * z * v - v * v);
    assert(v * g * z - u * z * v == v * (e - 2 * u) * z) by (nonlinear_arith)
        requires
            g == e - u,
    ;
    assert(x == u * (e - u) * (z * z) + v * (e - 2 * u) * z - v * v);
    assert(dd * dd == (e * e) * (z * z)) by (nonlinear_arith)
        requires
            dd == e * z,
    ;
    let w = cd * n * p;
    assert(cd * (n * pp * (dd - pp) * p) == w * x) by (nonlinear_arith)
        requires
            w == cd * n * p,
            x == pp * (dd - pp),
    ;
    assert(cn * ((n - 1) * dd * dd) == (cn * (n - 1) * (e * e)) * (z * z)) by (nonlinear_arith)
        requires
            dd * dd == (e * e) * (z * z),
    ;
    let q2 = u * (e - u);
    let q1 = v * (e - 2 * u);
    let q0 = v * v;
    assert(w * x == (w * q2) * (z * z) + (w * q1) * z - w * q0) by (nonlinear_arith)
        requires
            x == q2 * (z * z) + q1 * z - q0,
    ;
    let c2 = cn * (n - 1) * (e * e);
    assert((w * q2) * (z * z) - c2 * (z * z) == z * z * (w * q2 - c2)) by (nonlinear_arith);
    assert((w * q1) * z == z * (w * q1)) by (nonlinear_arith);
}

/// The sign of `Z^2 a2 + Z a1 - a0`, computed without leaving 128 bits.
fn sign_split(a2: i128, a1: i128, a0: i128) -> (s: i128)
    requires
        -0x1_0000_0000_0000_0000_0000_0000_0000 <= a2 <= 0x1_0000_0000_0000_0000_0000_0000_0000,
        -0x1_0000_0000_0000_0000_0000_0000_0000 <= a1 <= 0x1_0000_0000_0000_0000_0000_0000_0000,
        0 <= a0 <= 0x100_0000_0000_0000_0000_0000_0000_0000,
    ensures
        s == sgn(split_unit() * split_unit() * a2 + split_unit() * a1 - a0),
{
    let z: i128 = 1_000_000_000_000_000_000;
    let zz: i128 = z * z;
    let (q1, r1) = div_floor(a1, z);
    let (q0, r0) = div_floor(a0, zz);
    let t = a2 + q1 - q0;
    let zr = z * r1;
    proof {
        let zi = z as int;
        assert(zr < zz) by (nonlinear_arith)
            requires
                0 <= r1 < zi,
                zr == zi * r1,
                zz == zi * zi,
                zi > 0,
        ;
        assert(zr >= 0) by (nonlinear_arith)
            requires
                0 <= r1,
                zr == zi * r1,
                zi > 0,
        ;
        let total = zi * zi * a2 + zi * a1 - a0;
        assert(total == zi * zi * t + (zr - r0)) by (nonlinear_arith)
            requires
                total == zi * zi * a2 + zi * a1 - a0,
                a1 == q1 * zi + r1,
                a0 == q0 * (zi * zi) + r0,
                t == a2 + q1 - q0,
                zr == zi * r1,
        ;
        if t >= 1 {
            assert(zi * zi * t >= zi * zi) by (nonlinear_arith)
                requires
                    t >= 1,
            ;
        } else if t <= -1 {
            assert(zi * zi * t <= -(zi * zi)) by (nonlinear_arith)
                requires
                    t <= -1,
            ;
        } else {
            assert(zi * zi * t == 0);
        }
    }
    if t >= 1 {
        1
    } else if t <= -1 {
        -1
    } else if zr > r0 {
        1
    } else if zr < r0 {
        -1
    } else {
        0
    }
}

/// The sign of `cd a - cn b` for the split squared SD `a / b`: how `cn / cd` lies below,
/// at or above it.
fn cmp_split(cn: i128, cd: i128, u: i128, v: i128, e: i128, n: i128, k: u32) -> (s: i128)
    requires
        split_ok(u as int, v as int, e as int, n as int, k as nat),
        0 <= cn <= 0x4000_0000,
        1 <= cd <= 4,
    ensures
        s == sgn(cd * split_num(u as int, v as int, e as int, n as int, k as nat) - cn * split_den(
            e as int,
            n as int,
        )),
{
    proof {
        crate::decimal::lemma_pow10_mono((2 * k) as nat, 8);
        crate::decimal::lemma_pow10_pos((2 * k) as nat);
        reveal_with_fuel(pow10, 9);
        assert(pow10(8) == 100_000_000);
    }
    let p = crate::decimal::pow10_exec(2 * k) as i128;
    proof {
        assert(0 <= u * (e - u) <= e * e) by (nonlinear_arith)
            requires
                0 <= u <= e,
        ;
        assert(0 <= e * e <= 10_000_000 * 10_000_000) by (nonlinear_arith)
            requires
                10 <= e <= 10_000_000,
        ;
        assert(0 <= cd * n <= 4 * 0x10_0000) by (nonlinear_arith)
            requires
                1 <= cd <= 4,
                2 <= n <= 0x10_0000,
        ;
        assert(0 <= cd * n * p <= 4 * 0x10_0000 * 100_000_000) by (nonlinear_arith)
            requires
                1 <= cd <= 4,
                2 <= n <= 0x10_0000,
                1 <= p <= 100_000_000,
        ;
        assert(0 <= cd * n * p * (u * (e - u)) <= 4 * 0x10_0000 * 100_000_000 * (10_000_000
            * 10_000_000)) by (nonlinear_arith)
            requires
                0 <= cd * n * p <= 4 * 0x10_0000 * 100_000_000,
                0 <= u * (e - u) <= 10_000_000 * 10_000_000,
        ;
        assert(0 <= cn * (n - 1) <= 0x4000_0000 * 0x10_0000) by (nonlinear_arith)
            requires
                0 <= cn <= 0x4000_0000,
                2 <= n <= 0x10_0000,
        ;
        assert(0 <= cn * (n - 1) * (e * e) <= 0x4000_0000 * 0x10_0000 * (10_000_000 * 10_000_000)) by (nonlinear_arith)
            requires
                0 <= cn * (n - 1) <= 0x4000_0000 * 0x10_0000,
                0 <= e * e <= 10_000_000 * 10_000_000,
        ;
        assert(-0x8_0000_0000 * 10_000_000 <= v * (e - 2 * u) <= 0x8_0000_0000 * 10_000_000) by (nonlinear_arith)
            requires
                -0x8_0000_0000 <= v <= 0x8_0000_0000,
                0 <= u <= e,
                e <= 10_000_000,
        ;
        assert(-(4 * 0x10_0000 * 100_000_000) * (0x8_0000_0000 * 10_000_000) <= cd * n * p * (v * (e
            - 2 * u)) <= (4 * 0x10_0000 * 100_000_000) * (0x8_0000_0000 * 10_000_000)) by (nonlinear_arith)
            requires
                0 <= cd * n * p <= 4 * 0x10_0000 * 100_000_000,
                -0x8_0000_0000 * 10_000_000 <= v * (e - 2 * u) <= 0x8_0000_0000 * 10_000_000,
        ;
        assert(0 <= v * v <= 0x8_0000_0000 * 0x8_0000_0000) by (nonlinear_arith)
            requires
                -0x8_0000_0000 <= v <= 0x8_0000_0000,
        ;
        assert(0 <= cd * n * p * (v * v) <= (4 * 0x10_0000 * 100_000_000) * (0x8_0000_0000
            * 0x8_0000_0000)) by (nonlinear_arith)
            requires
                0 <= cd * n * p <= 4 * 0x10_0000 * 100_000_000,
                0 <= v * v <= 0x8_0000_0000 * 0x8_0000_0000,
        ;
        lemma_split_identity(u as int, v as int, e as int, n as int, p as int, cn as int, cd as int, split_unit());
    }
    let cnp = cd * n * p;
    let a2 = cnp * (u * (e - u)) - cn * (n - 1) * (e * e);
    let w1 = v * (e - 2 * u);
    let w0 = v * v;
    proof {
        assert(0 <= cnp <= 0x2_0000_0000_0000);
        assert(-0x800_0000_0000_0000 <= w1 <= 0x800_0000_0000_0000);
        assert(0 <= w0 <= 0x40_0000_0000_0000_0000);
        assert(-0x1000_0000_0000_0000_0000_0000_0000 <= cnp * w1 <= 0x1000_0000_0000_0000_0000_0000_0000) by (nonlinear_arith)
            requires
                0 <= cnp <= 0x2_0000_0000_0000,
                -0x800_0000_0000_0000 <= w1 <= 0x800_0000_0000_0000,
        ;
        assert(0 <= cnp * w0 <= 0x80_0000_0000_0000_0000_0000_0000_0000) by (nonlinear_arith)
            requires
                0 <= cnp <= 0x2_0000_0000_0000,
                0 <= w0 <= 0x40_0000_0000_0000_0000,
        ;
    }
    let a1 = cnp * w1;
    let a0 = cnp * w0;
    sign_split(a2, a1, a0)
}

/// `sqrt(a / b)` rounded to a whole number under `rule`, for the squared SD `a / b` of
/// binary data with the split proportion `(u Z + v) / (e Z)`; the rules that round from a
/// threshold do so from a threshold of 0.
pub fn round_sqrt_split(rule: Rule, u: i128, v: i128, e: i128, n: i128, k: u32) -> (q: i128)
    requires
        split_ok(u as int, v as int, e as int, n as int, k as nat),
    ensures
        q == sqrt_rounded(
            rule,
            split_num(u as int, v as int, e as int, n as int, k as nat),
            split_den(e as int, n as int),
            0,
            10,
        ),
        0 <= q <= 10_002,
{
    let ghost a = split_num(u as int, v as int, e as int, n as int, k as nat);
    let ghost b = split_den(e as int, n as int);
    proof {
        crate::decimal::lemma_pow10_mono(k as nat, 4);
        crate::decimal::lemma_pow10_pos(k as nat);
        crate::decimal::lemma_pow10_add(k as nat, k as nat);
        reveal_with_fuel(pow10, 5);
        assert(pow10(4) == 10_000);
        let z = split_unit();
        let pp = u * z + v;
        let dd = e * z;
        assert(0 < dd);
        assert(0 <= pp * (dd - pp) && 4 * (pp * (dd - pp)) <= dd * dd) by (nonlinear_arith)
            requires
                0 <= pp <= dd,
        ;
        assert(b > 0) by (nonlinear_arith)
            requires
                b == (n - 1) * dd * dd,
                n >= 2,
                dd > 0,
        ;
        assert(a >= 0) by (nonlinear_arith)
            requires
                a == n * pp * (dd - pp) * pow10(2 * k as nat),
                n >= 2,
                0 <= pp * (dd - pp),
                pow10(2 * k as nat) >= 1,
        ;
    }
    let k10 = crate::decimal::pow10_exec(k) as i128;
    let mut lo: i128 = 0;
    let mut hi: i128 = k10 + 1;
    proof {
        let z = split_unit();
        let pp = u * z + v;
        let dd = e * z;
        let pk = pow10(k as nat);
        assert(pow10(2 * k as nat) == pk * pk);
        assert(a < hi * hi * b) by (nonlinear_arith)
            requires
                a == n * pp * (dd - pp) * (pk * pk),
                b == (n - 1) * dd * dd,
                4 * (pp * (dd - pp)) <= dd * dd,
                0 <= pp * (dd - pp),
                n >= 2,
                hi == pk + 1,
                pk >= 1,
                dd > 0,
        {
            assert(n * (pp * (dd - pp)) * 4 <= n * (dd * dd)) by (nonlinear_arith)
                requires
                    4 * (pp * (dd - pp)) <= dd * dd,
                    n >= 2,
            ;
            assert(n * (dd * dd) <= 2 * (n - 1) * (dd * dd)) by (nonlinear_arith)
                requires
                    n >= 2,
                    dd > 0,
            ;
            assert(pk * pk < hi * hi) by (nonlinear_arith)
                requires
                    hi == pk + 1,
                    pk >= 1,
            ;
            assert((n - 1) * dd * dd > 0) by (nonlinear_arith)
                requires
                    n >= 2,
                    dd > 0,
            ;
            assert(a * 4 <= 2 * ((n - 1) * dd * dd) * (pk * pk)) by (nonlinear_arith)
                requires
                    a == n * pp * (dd - pp) * (pk * pk),
                    n * (pp * (dd - pp)) * 4 <= n * (dd * dd),
                    n * (dd * dd) <= 2 * (n - 1) * (dd * dd),
                    pk >= 1,
            ;
            assert((n - 1) * dd * dd * (pk * pk) < (n - 1) * dd * dd * (hi * hi)) by (nonlinear_arith)
                requires
                    pk * pk < hi * hi,
                    (n - 1) * dd * dd > 0,
            ;
        }
        assert(0 * 0 * b <= a);
    }
    while hi - lo > 1
        invariant
            split_ok(u as int, v as int, e as int, n as int, k as nat),
            a == split_num(u as int, v as int, e as int, n as int, k as nat),
            b == split_den(e as int, n as int),
            b > 0,
            0 <= lo < hi <= 10_001,
            lo * lo * b <= a,
            a < hi * hi * b,
        decreases hi - lo,
    {
        let mid = lo + (hi - lo) / 2;
        proof {
            assert(0 <= mid * mid <= 10_001 * 10_001) by (nonlinear_arith)
                requires
                    0 <= mid <= 10_001,
            ;
        }
        let c = cmp_split(mid * mid, 1, u, v, e, n, k);
        proof {
            assert(1 * a - mid * mid * b == a - mid * mid * b);
        }
        if c >= 0 {
            lo = mid;
        } else {
            hi = mid;
        }
    }
    let f = lo;
    proof {
        assert(hi == f + 1);
        assert(is_floor_sqrt(f as int, a, b));
        lemma_floor_sqrt_unique(f as int, floor_sqrt(a, b), a, b);
        assert(0 <= (2 * f + 1) * (2 * f + 1) <= 20_003 * 20_003) by (nonlinear_arith)
            requires
                0 <= f <= 10_001,
        ;
        assert(0 <= f * f <= 10_001 * 10_001) by (nonlinear_arith)
            requires
                0 <= f <= 10_001,
        ;
        assert((10 * f + 0) * (10 * f + 0) * b == 100 * (f * f * b)) by (nonlinear_arith);
        assert(10 * 10 * a == 100 * a);
        assert((2 * f + 1) * (2 * f + 1) * b - 4 * a == -(4 * a - (2 * f + 1) * (2 * f + 1) * b));
    }
    let c0 = cmp_split(f * f, 1, u, v, e, n, k);
    let ch = cmp_split((2 * f + 1) * (2 * f + 1), 4, u, v, e, n, k);
    match rule {
        Rule::Floor | Rule::Trunc => f,
        Rule::Ceiling => if c0 == 0 {
            f
        } else {
            f + 1
        },
        Rule::AntiTrunc => f + 1,
        Rule::HalfUp => if ch >= 0 {
            f + 1
        } else {
            f
        },
        Rule::HalfDown => if ch > 0 {
            f + 1
        } else {
            f
        },
        Rule::HalfEven => if ch > 0 {
            f + 1
        } else if ch == 0 && f % 2 == 1 {
            f + 1
        } else {
            f
        },
        Rule::UpFrom => f + 1,
        Rule::DownFrom => if c0 > 0 {
            f + 1
        } else {
            f
        },
    }
}

} // verus!
