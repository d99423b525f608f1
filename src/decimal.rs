use vstd::prelude::*;
use vstd::string::StringSliceAdditionalSpecFns;

verus! {

/// Most decimal digits a literal may carry so that its mantissa fits in an `i64`.
pub const MAX_LITERAL_DIGITS: usize = 18;

pub open spec fn is_digit(b: u8) -> bool {
    48 <= b <= 57
}

pub open spec fn digit_value(b: u8) -> int {
    b as int - 48
}

/// Length of the run of ASCII digits that starts at position `i` of `s`.
pub open spec fn digit_run(s: Seq<u8>, i: int) -> nat
    decreases s.len() - i,
{
    if 0 <= i < s.len() && is_digit(s[i]) {
        1 + digit_run(s, i + 1)
    } else {
        0
    }
}

/// The number written by the digits `s[i..j]`.
pub open spec fn digits_value(s: Seq<u8>, i: int, j: int) -> int
    decreases j - i,
{
    if j <= i {
        0
    } else {
        digits_value(s, i, j - 1) * 10 + digit_value(s[j - 1])
    }
}

pub open spec fn pow10(k: nat) -> int
    decreases k,
{
    if k == 0 {
        1
    } else {
        10 * pow10((k - 1) as nat)
    }
}

/// `p` stands in `s` at position `i`.
pub open spec fn occurs_at(s: Seq<u8>, p: Seq<u8>, i: int) -> bool {
    0 <= i && i + p.len() <= s.len() && s.subrange(i, i + p.len()) == p
}

/// The first position at or after `i` where `p` stands in `s`.
pub open spec fn find_from(s: Seq<u8>, p: Seq<u8>, i: int) -> Option<int>
    decreases s.len() - i,
{
    if i < 0 || s.len() - i < p.len() {
        None
    } else if occurs_at(s, p, i) {
        Some(i)
    } else if i >= s.len() {
        None
    } else {
        find_from(s, p, i + 1)
    }
}

/// Decimal places of a literal: the digits that directly follow the first separator.
/// No separator, or a separator with no digit after it, gives no count.
pub open spec fn decimal_places_of(s: Seq<u8>, sep: Seq<u8>) -> Option<nat> {
    match find_from(s, sep, 0) {
        None => None,
        Some(i) => {
            let k = digit_run(s, i + sep.len());
            if k == 0 {
                None
            } else {
                Some(k)
            }
        },
    }
}

/// An exact decimal number: `mantissa / 10^scale`.
#[derive(Clone, Copy, Debug, PartialEq, Eq)]
pub struct Decimal {
    pub mantissa: i64,
    pub scale: u32,
}

impl Decimal {
    pub open spec fn wf(self) -> bool {
        self.scale <= MAX_LITERAL_DIGITS
    }

    /// The whole number `m`.
    pub fn from_int(m: i64) -> (r: Decimal)
        ensures
            r.mantissa == m,
            r.scale == 0,
            r.wf(),
    {
        Decimal { mantissa: m, scale: 0 }
    }

    /// `mantissa / 10^scale`.
    pub fn new(mantissa: i64, scale: u32) -> (r: Decimal)
        requires
            scale <= MAX_LITERAL_DIGITS,
        ensures
            r.mantissa == mantissa,
            r.scale == scale,
            r.wf(),
    {
        Decimal { mantissa, scale }
    }
}

/// An exact fraction `numer / denom`.
#[derive(Clone, Copy, Debug, PartialEq, Eq)]
pub struct Ratio {
    pub numer: i128,
    pub denom: i128,
}

/// A reported number as it was written: its exact value and its count of decimal places.
/// `digits` is read from the text, never from the value: "5.0" and "5.00" differ.
#[derive(Clone, Copy, Debug, PartialEq, Eq)]
pub struct DecimalLiteral {
    pub value: Decimal,
    pub digits: Option<u32>,
}

#[derive(Clone, Copy, Debug, PartialEq, Eq)]
pub enum DecimalError {
    NotNumeric,
}

/// Bytes of a literal `[+|-] digits [. digits]`, split into its parts.
pub open spec fn sign_len(s: Seq<u8>) -> int {
    if s.len() > 0 && (s[0] == 45u8 || s[0] == 43u8) {
        1
    } else {
        0
    }
}

pub open spec fn int_end(s: Seq<u8>) -> int {
    sign_len(s) + digit_run(s, sign_len(s))
}

pub open spec fn has_point(s: Seq<u8>) -> bool {
    int_end(s) < s.len() && s[int_end(s)] == 46u8
}

pub open spec fn frac_len(s: Seq<u8>) -> nat {
    if has_point(s) {
        digit_run(s, int_end(s) + 1)
    } else {
        0
    }
}

/// `s` is a plain decimal numeral with at most `MAX_LITERAL_DIGITS` digits.
pub open spec fn is_literal(s: Seq<u8>) -> bool {
    let a = digit_run(s, sign_len(s));
    let b = frac_len(s);
    &&& a + b >= 1
    &&& a + b <= MAX_LITERAL_DIGITS
    &&& if has_point(s) {
        int_end(s) + 1 + b == s.len()
    } else {
        int_end(s) == s.len()
    }
}

/// The mantissa of a literal: all its digits read as one number, with its sign.
pub open spec fn literal_mantissa(s: Seq<u8>) -> int {
    let m = digits_value(s, sign_len(s), int_end(s)) * pow10(frac_len(s)) + digits_value(
        s,
        int_end(s) + 1,
        int_end(s) + 1 + frac_len(s),
    );
    if sign_len(s) == 1 && s[0] == 45u8 {
        -m
    } else {
        m
    }
}

pub proof fn lemma_pow10_pos(k: nat)
    ensures
        pow10(k) >= 1,
    decreases k,
{
    if k > 0 {
        lemma_pow10_pos((k - 1) as nat);
    }
}

pub proof fn lemma_pow10_mono(a: nat, b: nat)
    requires
        a <= b,
    ensures
        pow10(a) <= pow10(b),
    decreases b,
{
    if a < b {
        lemma_pow10_mono(a, (b - 1) as nat);
        lemma_pow10_pos((b - 1) as nat);
    }
}

pub proof fn lemma_pow10_add(a: nat, b: nat)
    ensures
        pow10(a + b) == pow10(a) * pow10(b),
    decreases b,
{
    if b > 0 {
        lemma_pow10_add(a, (b - 1) as nat);
        assert(pow10(a + b) == 10 * pow10((a + b - 1) as nat));
        assert(pow10(b) == 10 * pow10((b - 1) as nat));
        assert(pow10(a) * (10 * pow10((b - 1) as nat)) == 10 * (pow10(a) * pow10((b - 1) as nat)))
            by (nonlinear_arith);
    }
}

pub proof fn lemma_pow10_limits()
    ensures
        pow10(17) == 100000000000000000,
        pow10(18) == 1000000000000000000,
{
    reveal_with_fuel(pow10, 19);
}

proof fn lemma_digits_value_bound(s: Seq<u8>, i: int, j: int)
    requires
        0 <= i <= j <= s.len(),
        forall|k: int| i <= k < j ==> is_digit(#[trigger] s[k]),
    ensures
        0 <= digits_value(s, i, j) < pow10((j - i) as nat),
    decreases j - i,
{
    if j > i {
        lemma_digits_value_bound(s, i, j - 1);
        assert(pow10((j - i) as nat) == 10 * pow10((j - 1 - i) as nat));
    }
}

proof fn lemma_digit_run_digits(s: Seq<u8>, i: int, k: int)
    requires
        0 <= i,
        i <= k < i + digit_run(s, i),
    ensures
        k < s.len(),
        is_digit(s[k]),
    decreases k - i,
{
    if k > i {
        lemma_digit_run_digits(s, i + 1, k);
    }
}

/// Length of the run of digits from `i`, computed.
fn digit_run_exec(s: &[u8], i: usize) -> (r: usize)
    requires
        i <= s@.len(),
    ensures
        r == digit_run(s@, i as int),
        i + r <= s@.len(),
{
    let mut j: usize = i;
    while j < s.len() && 48 <= s[j] && s[j] <= 57
        invariant
            i <= j <= s@.len(),
            digit_run(s@, i as int) == (j - i) + digit_run(s@, j as int),
        decreases s@.len() - j,
    {
        j = j + 1;
    }
    j - i
}

/// `digits_value(s, i, j)`, computed; `j - i` is at most `MAX_LITERAL_DIGITS`.
fn digits_value_exec(s: &[u8], i: usize, j: usize) -> (r: i64)
    requires
        i <= j <= s@.len(),
        j - i <= MAX_LITERAL_DIGITS,
        forall|k: int| i <= k < j ==> is_digit(#[trigger] s@[k]),
    ensures
        r == digits_value(s@, i as int, j as int),
{
    let mut v: i64 = 0;
    let mut k: usize = i;
    while k < j
        invariant
            i <= k <= j <= s@.len(),
            j - i <= MAX_LITERAL_DIGITS,
            forall|t: int| i <= t < j ==> is_digit(#[trigger] s@[t]),
            v == digits_value(s@, i as int, k as int),
        decreases j - k,
    {
        proof {
            lemma_digits_value_bound(s@, i as int, k as int);
            lemma_pow10_mono((k - i) as nat, 17);
            lemma_pow10_limits();
        }
        v = v * 10 + (s[k] - 48) as i64;
        k = k + 1;
    }
    v
}

/// `10^k` as an `i64`.
pub fn pow10_exec(k: u32) -> (r: i64)
    requires
        k <= MAX_LITERAL_DIGITS,
    ensures
        r == pow10(k as nat),
{
    let mut r: i64 = 1;
    let mut i: u32 = 0;
    while i < k
        invariant
            i <= k <= MAX_LITERAL_DIGITS,
            r == pow10(i as nat),
        decreases k - i,
    {
        proof {
            lemma_pow10_mono(i as nat, 17);
            lemma_pow10_limits();
            lemma_pow10_pos(i as nat);
        }
        r = r * 10;
        i = i + 1;
    }
    r
}

/// `p` stands in `s` at position `i`, computed.
fn occurs_at_exec(s: &[u8], p: &[u8], i: usize) -> (r: bool)
    ensures
        r == occurs_at(s@, p@, i as int),
{
    let n = s.len();
    if i > n || p.len() > n - i {
        return false;
    }
    let mut k: usize = 0;
    while k < p.len()
        invariant
            n == s@.len(),
            i + p@.len() <= s@.len(),
            k <= p@.len(),
            forall|t: int| 0 <= t < k ==> s@[i + t] == p@[t],
        decreases p@.len() - k,
    {
        if s[i + k] != p[k] {
            assert(s@.subrange(i as int, i + p@.len())[k as int] != p@[k as int]);
            return false;
        }
        k = k + 1;
    }
    assert(s@.subrange(i as int, i + p@.len()) =~= p@);
    true
}

/// Decimal places of the bytes `b` with separator `p`, as `decimal_places_of` gives them.
fn decimal_places_bytes(b: &[u8], p: &[u8]) -> (r: Option<usize>)
    ensures
        places_match(r, decimal_places_of(b@, p@)),
{
    let n = b.len();
    let mut i: usize = 0;
    while i <= n && p.len() <= n - i
        invariant
            n == b@.len(),
            i <= b@.len() + 1,
            find_from(b@, p@, 0) == find_from(b@, p@, i as int),
        decreases b@.len() + 1 - i,
    {
        if occurs_at_exec(b, p, i) {
            assert(find_from(b@, p@, i as int) == Some(i as int));
            let k = digit_run_exec(b, i + p.len());
            if k == 0 {
                return None;
            }
            return Some(k);
        }
        if i == n {
            return None;
        }
        i = i + 1;
    }
    None
}

/// `r` holds the count `k`, or nothing where there is none.
pub open spec fn places_match(r: Option<usize>, k: Option<nat>) -> bool {
    match k {
        None => r is None,
        Some(k) => r is Some && r->0 == k,
    }
}

/// Counts the decimal places of a literal: the digits that directly follow the first
/// occurrence of `sep`. Gives `None` for no literal, no separator, or a separator that
/// no digit follows (so "1." has no count, and neither has "0").
pub fn decimal_places_scalar(x: Option<&str>, sep: &str) -> (r: Option<usize>)
    ensures
        match x {
            None => r is None,
            Some(s) => places_match(r, decimal_places_of(s.spec_bytes(), sep.spec_bytes())),
        },
{
    match x {
        None => None,
        Some(s) => decimal_places_bytes(s.as_bytes(), sep.as_bytes()),
    }
}

/// The bytes of the decimal point.
pub open spec fn point() -> Seq<u8> {
    seq![46u8]
}

/// Decimal places of `x` with the decimal point as separator.
pub fn decimal_places(x: &str) -> (r: Option<usize>)
    ensures
        places_match(r, decimal_places_of(x.spec_bytes(), point())),
{
    let dot: Vec<u8> = vec![46u8];
    assert(dot@ =~= point());
    decimal_places_bytes(x.as_bytes(), dot.as_slice())
}

/// Parses a plain decimal numeral `[+|-] digits [. digits]` into its exact value and its
/// decimal places. Whitespace, exponents and numerals of more than `MAX_LITERAL_DIGITS`
/// digits are refused with `NotNumeric`.
pub fn parse_decimal(x: &str) -> (r: Result<DecimalLiteral, DecimalError>)
    ensures
        is_literal(x.spec_bytes()) <==> r is Ok,
        r is Ok ==> {
            let s = x.spec_bytes();
            let lit = r->Ok_0;
            &&& lit.value.wf()
            &&& -1_000_000_000_000_000_000 < lit.value.mantissa < 1_000_000_000_000_000_000
            &&& lit.value.mantissa == literal_mantissa(s)
            &&& lit.value.scale == frac_len(s)
            &&& lit.digits == (if frac_len(s) == 0 {
                None::<u32>
            } else {
                Some(frac_len(s) as u32)
            })
        },
{
    let s = x.as_bytes();
    let sl: usize = if s.len() > 0 && (s[0] == 45 || s[0] == 43) {
        1
    } else {
        0
    };
    let a = digit_run_exec(s, sl);
    let ie = sl + a;
    let point = ie < s.len() && s[ie] == 46;
    let b: usize = if point {
        digit_run_exec(s, ie + 1)
    } else {
        0
    };
    let end: usize = if point {
        ie + 1 + b
    } else {
        ie
    };
    if a + b < 1 || a + b > MAX_LITERAL_DIGITS || end != s.len() {
        return Err(DecimalError::NotNumeric);
    }
    proof {
        assert forall|k: int| sl <= k < ie implies is_digit(#[trigger] s@[k]) by {
            lemma_digit_run_digits(s@, sl as int, k);
        }
        if point {
            assert forall|k: int| ie + 1 <= k < ie + 1 + b implies is_digit(#[trigger] s@[k]) by {
                lemma_digit_run_digits(s@, ie + 1, k);
            }
        }
        lemma_digits_value_bound(s@, sl as int, ie as int);
    }
    let iv = digits_value_exec(s, sl, ie);
    let fv: i64 = if point {
        digits_value_exec(s, ie + 1, ie + 1 + b)
    } else {
        0
    };
    proof {
        if point {
            lemma_digits_value_bound(s@, ie + 1, (ie + 1 + b) as int);
        }
        lemma_pow10_add(a as nat, b as nat);
        lemma_pow10_mono((a + b) as nat, 18);
        lemma_pow10_limits();
        lemma_pow10_pos(b as nat);
        assert(iv * pow10(b as nat) + fv < pow10(a as nat) * pow10(b as nat)) by (nonlinear_arith)
            requires
                0 <= iv < pow10(a as nat),
                0 <= fv < pow10(b as nat),
                pow10(b as nat) >= 1,
        ;
    }
    let m = iv * pow10_exec(b as u32) + fv;
    let m = if sl == 1 && s[0] == 45 {
        -m
    } else {
        m
    };
    let digits: Option<u32> = if b == 0 {
        None
    } else {
        Some(b as u32)
    };
    Ok(DecimalLiteral { value: Decimal { mantissa: m, scale: b as u32 }, digits })
}

} // verus!
