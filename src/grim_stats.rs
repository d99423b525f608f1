use vstd::prelude::*;
use vstd::string::StringSliceAdditionalSpecFns;

use crate::decimal::{
    decimal_places, decimal_places_of,
    point, pow10, pow10_exec, Ratio, MAX_LITERAL_DIGITS,
};

verus! {

/// Decimal places that the granularity of `x` rests on: those of the literal, two more
/// for a percentage. None where the literal has no decimal places, or so many that
/// `10^places` leaves the range of an `i64`.
pub open spec fn grim_digits(x: &str, percent: bool) -> Option<nat> {
    match decimal_places_of(x.spec_bytes(), point()) {
        None => None,
        Some(d) => {
            let e = if percent {
                d + 2
            } else {
                d
            };
            if e <= MAX_LITERAL_DIGITS {
                Some(e)
            } else {
                None
            }
        },
    }
}

/// Count of means that no integer sum over `n * items` values can give, among the
/// `10^places` possible means between two whole numbers: `10^places - n * items`.
pub open spec fn grim_total_spec(d: nat, n: u32, items: u32) -> int {
    pow10(d) - n * items
}

fn grim_places(x: &str, percent: bool) -> (r: Option<u32>)
    ensures
        match grim_digits(x, percent) {
            None => r is None,
            Some(d) => r is Some && r->0 == d,
        },
{
    let d = match decimal_places(x) {
        None => {
            return None;
        },
        Some(d) => d,
    };
    if d > MAX_LITERAL_DIGITS || (percent && d > MAX_LITERAL_DIGITS - 2) {
        return None;
    }
    if percent {
        Some((d + 2) as u32)
    } else {
        Some(d as u32)
    }
}

fn granularity_gap(p10: i64, n: u32, items: u32) -> (r: i128)
    ensures
        r == p10 - n * items,
{
    assert(0 <= n * items <= 0xffff_ffff * 0xffff_ffff) by (nonlinear_arith)
        requires
            n <= 0xffff_ffff,
            items <= 0xffff_ffff,
    ;
    let ni: u64 = n as u64 * items as u64;
    p10 as i128 - ni as i128
}

/// How many of the possible means at the reported precision are unreachable with
/// `n * items` values: `10^places - n * items`, where `places` counts two more for a
/// percentage. None where `x` has no decimal places or too many.
pub fn grim_total(x: &str, n: u32, items: u32, percent: bool) -> (r: Option<i128>)
    ensures
        match grim_digits(x, percent) {
            None => r is None,
            Some(d) => r is Some && r->0 == grim_total_spec(d, n, items),
        },
{
    match grim_places(x, percent) {
        None => None,
        Some(d) => Some(granularity_gap(pow10_exec(d), n, items)),
    }
}

/// Share of the possible means at the reported precision that are unreachable:
/// `(10^places - n * items) / 10^places`, which is negative where every mean can be
/// reached.
pub fn grim_ratio(x: &str, n: u32, items: u32, percent: bool) -> (r: Option<Ratio>)
    ensures
        match grim_digits(x, percent) {
            None => r is None,
            Some(d) => r == Some(Ratio { numer: grim_total_spec(d, n, items) as i128, denom: pow10(d) as i128 }),
        },
{
    match grim_places(x, percent) {
        None => None,
        Some(d) => {
            let p10 = pow10_exec(d);
            Some(Ratio { numer: granularity_gap(p10, n, items), denom: p10 as i128 })
        },
    }
}

/// Probability that a mean drawn at random at the reported precision is inconsistent:
/// the ratio of `grim_ratio`, or zero where that is negative.
pub fn grim_probability(x: &str, n: u32, items: u32, percent: bool) -> (r: Option<Ratio>)
    ensures
        match grim_digits(x, percent) {
            None => r is None,
            Some(d) => r == Some(
                Ratio {
                    numer: if grim_total_spec(d, n, items) > 0 {
                        grim_total_spec(d, n, items) as i128
                    } else {
                        0
                    },
                    denom: pow10(d) as i128,
                },
            ),
        },
{
    match grim_places(x, percent) {
        None => None,
        Some(d) => {
            let p10 = pow10_exec(d);
            let gap = granularity_gap(p10, n, items);
            let numer: i128 = if gap > 0 {
                gap
            } else {
                0
            };
            Some(Ratio { numer, denom: p10 as i128 })
        },
    }
}

} // verus!
