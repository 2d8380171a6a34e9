use vstd::prelude::*;
use crate::power::{
    pow10, half_pow10, shift_of, ndigits, ilog10, pow10_at, half_pow10_at, max_shift, lemma_pow10_table,
    lemma_widen, lemma_floor_multiple, lemma_ndigits_unique, lemma_pow10_positive,
};

verus! {

pub const SIGN_POS_INF: i8 = 2;
pub const SIGN_POS: i8 = 1;
pub const SIGN_ZERO: i8 = 0;
pub const SIGN_NEG: i8 = -1;
pub const SIGN_NEG_INF: i8 = -2;
/// The least coefficient of a finite non-zero value: sixteen digits.
pub const COEF_MIN: u64 = 1000000000000000;
/// The greatest coefficient of a finite non-zero value: sixteen digits.
pub const COEF_MAX: u64 = 9999999999999999;
pub const DIGITSMAX: u32 = 16;
pub const SHIFTMAX: u32 = DIGITSMAX - 1;

/// A decimal number `sign * coef * 10^(exp - 16)`.
///
/// `sign` orders as the numbers do: `SIGN_NEG_INF < SIGN_NEG < SIGN_ZERO <
/// SIGN_POS < SIGN_POS_INF`. A finite non-zero value keeps sixteen digits in
/// `coef`, so `exp` counts the digits before the decimal point. Zero has
/// coefficient and exponent zero; an infinity has coefficient one and
/// exponent zero.
#[derive(Clone, Copy, Debug, PartialEq, Eq, Structural)]
pub struct Value {
    pub coef: u64,
    pub sign: i8,
    pub exp: i32,
}

/// How `Value::to_integer` treats a fractional part.
#[derive(Clone, Copy, Debug, PartialEq, Eq, Structural)]
pub enum RoundingMode {
    /// Away from zero whenever a fraction is left.
    Up,
    /// Toward zero.
    Down,
    /// To the nearest integer, a half going away from zero.
    HalfUp,
}

/// The (sign, coefficient, exponent) of the sentinel that `sign` names:
/// an infinity for an infinite sign, zero for any other.
pub open spec fn inf_of(sign: int) -> (int, nat, int) {
    if sign == 2 {
        (2, 1, 0)
    } else if sign == -2 {
        (-2, 1, 0)
    } else {
        (0, 0, 0)
    }
}

/// Rounds `c` half up one decimal place at a time, raising `e` each time,
/// until it has at most sixteen digits.
pub open spec fn rounded(c: nat, e: int) -> (nat, int)
    decreases c,
{
    if c > 9999999999999999 {
        rounded((c + 5) / 10, e + 1)
    } else {
        (c, e)
    }
}

/// The canonical triple for `sign * c * 10^(e - 16)`: oversized coefficients
/// are rounded down to sixteen digits, smaller ones are widened to sixteen.
pub open spec fn normalized(sign: int, c: nat, e: int) -> (int, nat, int) {
    if !(sign == 1 || sign == -1) || c == 0 {
        inf_of(sign)
    } else if c > 9999999999999999 {
        (sign, rounded(c, e).0, rounded(c, e).1)
    } else {
        (sign, c * pow10(shift_of(c)), e - shift_of(c))
    }
}

/// The value that a triple of fitting fields stands for.
pub open spec fn of_triple(t: (int, nat, int)) -> Value {
    Value { coef: t.1 as u64, sign: t.0 as i8, exp: t.2 as i32 }
}

/// The canonical value of an integer `n`.
pub open spec fn from_int(n: int) -> (int, nat, int) {
    if n == 0 {
        (0, 0, 0)
    } else if n > 0 {
        normalized(1, n as nat, 16)
    } else {
        normalized(-1, (-n) as nat, 16)
    }
}

/// Upper bound on the coefficient after `k` rounding steps from a `u64`.
spec fn step_bound(k: int) -> nat {
    if k <= 0 {
        18446744073709551615
    } else if k == 1 {
        1844674407370955162
    } else if k == 2 {
        184467440737095517
    } else if k == 3 {
        18446744073709552
    } else {
        1844674407370956
    }
}

/// Rounding an oversized coefficient lands on sixteen digits.
pub proof fn lemma_rounded_canonical(c: nat, e: int)
    requires
        c > 9999999999999999,
    ensures
        1000000000000000 <= rounded(c, e).0 <= 9999999999999999,
    decreases c,
{
    let n = (c + 5) / 10;
    assert(rounded(c, e) == rounded(n, e + 1));
    assert(n >= 1000000000000000);
    if n > 9999999999999999 {
        lemma_rounded_canonical(n, e + 1);
    }
}

impl Value {
    /// Zero.
    pub fn zero() -> (r: Value)
        ensures
            r.triple() == (0int, 0nat, 0int),
    {
        Value { coef: 0, sign: SIGN_ZERO, exp: 0 }
    }

    /// One.
    pub fn one() -> (r: Value)
        ensures
            r.triple() == (1int, 1000000000000000nat, 1int),
    {
        Value { coef: COEF_MIN, sign: SIGN_POS, exp: 1 }
    }

    /// Minus one.
    pub fn neg_one() -> (r: Value)
        ensures
            r.triple() == (-1int, 1000000000000000nat, 1int),
    {
        Value { coef: COEF_MIN, sign: SIGN_NEG, exp: 1 }
    }

    /// Positive infinity.
    pub fn pos_inf() -> (r: Value)
        ensures
            r.triple() == inf_of(2),
    {
        Value { coef: 1, sign: SIGN_POS_INF, exp: 0 }
    }

    /// Negative infinity.
    pub fn neg_inf() -> (r: Value)
        ensures
            r.triple() == inf_of(-2),
    {
        Value { coef: 1, sign: SIGN_NEG_INF, exp: 0 }
    }

    /// The fields as mathematical integers.
    pub open spec fn triple(self) -> (int, nat, int) {
        (self.sign as int, self.coef as nat, self.exp as int)
    }

    /// Well-formed: zero and the infinities are the sentinels above, and a
    /// finite non-zero value has exactly sixteen digits in its coefficient.
    pub open spec fn wf(self) -> bool {
        ||| (self.sign == 0 && self.coef == 0 && self.exp == 0)
        ||| ((self.sign == 2 || self.sign == -2) && self.coef == 1 && self.exp == 0)
        ||| ((self.sign == 1 || self.sign == -1) && 1000000000000000 <= self.coef
            <= 9999999999999999)
    }

    /// Builds a value from a triple that need not be canonical (see
    /// `normalize`).
    pub fn new(coef: u64, sign: i8, exp: i32) -> (r: Value)
        requires
            (sign == SIGN_POS || sign == SIGN_NEG) && coef > COEF_MAX ==> exp <= i32::MAX - 4,
            (sign == SIGN_POS || sign == SIGN_NEG) && 0 < coef < COEF_MIN ==> exp >= i32::MIN + 15,
        ensures
            r.triple() == normalized(sign as int, coef as nat, exp as int),
            r.wf(),
    {
        normalize(sign, coef, exp)
    }

    /// Assembles the fields as given, with no check.
    pub fn raw(sign: i8, coef: u64, exp: i32) -> (r: Value)
        ensures
            r.sign == sign,
            r.coef == coef,
            r.exp == exp,
    {
        Value { sign, coef, exp }
    }

    /// The infinity that `sign` names, or zero for any other sign.
    pub fn inf(sign: i8) -> (r: Value)
        ensures
            r.triple() == inf_of(sign as int),
            r.wf(),
    {
        if sign == SIGN_POS_INF {
            Value::pos_inf()
        } else if sign == SIGN_NEG_INF {
            Value::neg_inf()
        } else {
            Value::zero()
        }
    }
}

impl Default for Value {
    /// Zero.
    fn default() -> (r: Value)
        ensures
            r.triple() == (0int, 0nat, 0int),
    {
        Value::zero()
    }
}

/// The infinity that `sign` names, or zero for any other sign.
pub fn inf(sign: i8) -> (r: Value)
    ensures
        r.triple() == inf_of(sign as int),
        r.wf(),
{
    Value::inf(sign)
}

/// Brings `sign * coef * 10^(exp - 16)` to canonical form: a sign that is
/// neither positive nor negative, or a zero coefficient, gives the sentinel
/// of the sign; a coefficient over sixteen digits is rounded half up one
/// place at a time; a shorter one is widened to sixteen digits.
pub fn normalize(sign: i8, coef: u64, exp: i32) -> (r: Value)
    requires
        (sign == SIGN_POS || sign == SIGN_NEG) && coef > COEF_MAX ==> exp <= i32::MAX - 4,
        (sign == SIGN_POS || sign == SIGN_NEG) && 0 < coef < COEF_MIN ==> exp >= i32::MIN + 15,
    ensures
        r.triple() == normalized(sign as int, coef as nat, exp as int),
        r.wf(),
{
    if (sign != SIGN_POS && sign != SIGN_NEG) || coef == 0 {
        return Value::inf(sign);
    }
    let mut c = coef;
    let mut e = exp;
    let mut atmax = false;
    while c > COEF_MAX
        invariant
            (sign == SIGN_POS || sign == SIGN_NEG) && coef > COEF_MAX ==> exp <= i32::MAX - 4,
            sign == SIGN_POS || sign == SIGN_NEG,
            c > COEF_MAX ==> coef > COEF_MAX,
            exp <= e <= exp + 4,
            c <= step_bound(e - exp),
            rounded(c as nat, e as int) == rounded(coef as nat, exp as int),
            !atmax ==> c == coef && e == exp,
            atmax ==> c >= COEF_MIN && coef > COEF_MAX,
        decreases c,
    {
        c = c / 10 + if c % 10 >= 5 {
            1
        } else {
            0
        };
        assert(e - exp < 4);
        e = e + 1;
        atmax = true;
    }
    if !atmax {
        let p = max_shift(c);
        proof {
            lemma_pow10_table();
            lemma_widen(c as nat);
            if c >= COEF_MIN {
                lemma_ndigits_unique(c as nat, 16);
            }
        }
        c = c * pow10_at(p as usize);
        e = e - p as i32;
    } else {
        proof {
            lemma_rounded_canonical(coef as nat, exp as int);
        }
    }
    Value { coef: c, sign, exp: e }
}

/// The total order: signs first (their order is the numbers' order); two
/// zeros, or two infinities of one sign, are equal; between finite values
/// of one sign the larger exponent, then the larger coefficient, is the
/// larger magnitude.
pub open spec fn compare(a: Value, b: Value) -> core::cmp::Ordering {
    if a.sign < b.sign {
        core::cmp::Ordering::Less
    } else if a.sign > b.sign {
        core::cmp::Ordering::Greater
    } else if a == b {
        core::cmp::Ordering::Equal
    } else if !(a.sign == 1 || a.sign == -1) {
        core::cmp::Ordering::Equal
    } else if a.exp != b.exp {
        if (a.exp < b.exp) == (a.sign > 0) {
            core::cmp::Ordering::Less
        } else {
            core::cmp::Ordering::Greater
        }
    } else if a.coef != b.coef {
        if (a.coef < b.coef) == (a.sign > 0) {
            core::cmp::Ordering::Less
        } else {
            core::cmp::Ordering::Greater
        }
    } else {
        core::cmp::Ordering::Equal
    }
}

impl PartialOrd for Value {
    fn partial_cmp(&self, other: &Value) -> (r: Option<core::cmp::Ordering>) {
        if self.sign < other.sign {
            return Some(core::cmp::Ordering::Less);
        }
        if self.sign > other.sign {
            return Some(core::cmp::Ordering::Greater);
        }
        if *self == *other {
            return Some(core::cmp::Ordering::Equal);
        }
        let sign = self.sign;
        if sign != SIGN_POS && sign != SIGN_NEG {
            return Some(core::cmp::Ordering::Equal);
        }
        if self.exp != other.exp {
            return Some(
                if (self.exp < other.exp) == (sign > 0) {
                    core::cmp::Ordering::Less
                } else {
                    core::cmp::Ordering::Greater
                },
            );
        }
        if self.coef != other.coef {
            return Some(
                if (self.coef < other.coef) == (sign > 0) {
                    core::cmp::Ordering::Less
                } else {
                    core::cmp::Ordering::Greater
                },
            );
        }
        Some(core::cmp::Ordering::Equal)
    }
}

impl vstd::std_specs::cmp::PartialOrdSpecImpl for Value {
    open spec fn obeys_partial_cmp_spec() -> bool {
        true
    }

    open spec fn partial_cmp_spec(&self, other: &Value) -> Option<core::cmp::Ordering> {
        Some(compare(*self, *other))
    }
}

/// Splits a signed integer into its sign and magnitude and normalizes it,
/// the magnitude standing in the sixteen integer places.
fn from_magnitude(negative: bool, magnitude: u64) -> (r: Value)
    ensures
        r.triple() == (if magnitude == 0 {
            (0int, 0nat, 0int)
        } else if negative {
            normalized(-1, magnitude as nat, 16)
        } else {
            normalized(1, magnitude as nat, 16)
        }),
        r.wf(),
{
    if magnitude == 0 {
        return Value::zero();
    }
    normalize(if negative { SIGN_NEG } else { SIGN_POS }, magnitude, DIGITSMAX as i32)
}

impl From<u64> for Value {
    fn from(value: u64) -> (r: Value) {
        from_magnitude(false, value)
    }
}

impl vstd::std_specs::convert::FromSpecImpl<u64> for Value {
    open spec fn obeys_from_spec() -> bool {
        true
    }

    open spec fn from_spec(v: u64) -> Value {
        of_triple(from_int(v as int))
    }
}

impl From<i64> for Value {
    fn from(value: i64) -> (r: Value) {
        let magnitude: u64 = if value < 0 {
            (-(value as i128)) as u64
        } else {
            value as u64
        };
        from_magnitude(value < 0, magnitude)
    }
}

impl vstd::std_specs::convert::FromSpecImpl<i64> for Value {
    open spec fn obeys_from_spec() -> bool {
        true
    }

    open spec fn from_spec(v: i64) -> Value {
        of_triple(from_int(v as int))
    }
}

impl From<i32> for Value {
    fn from(value: i32) -> (r: Value) {
        Value::from(value as i64)
    }
}

impl vstd::std_specs::convert::FromSpecImpl<i32> for Value {
    open spec fn obeys_from_spec() -> bool {
        true
    }

    open spec fn from_spec(v: i32) -> Value {
        of_triple(from_int(v as int))
    }
}

/// The result of `to_integer`: zero, the infinities and values with no
/// fractional place pass through; a magnitude below one goes to zero or to
/// one of its sign; otherwise the fractional places are
/// dropped, with one unit added at the last integer place where the mode
/// rounds away from zero.
pub open spec fn integer_of(v: Value, mode: RoundingMode) -> (int, nat, int) {
    if !(v.sign == 1 || v.sign == -1) || v.exp >= 16 {
        v.triple()
    } else if v.exp <= 0 {
        if mode == RoundingMode::Up || (mode == RoundingMode::HalfUp && v.exp == 0 && v.coef
            >= 5000000000000000) {
            (v.sign as int, 1000000000000000nat, 1int)
        } else {
            (0, 0, 0)
        }
    } else {
        let w = (16 - v.exp) as nat;
        let frac = v.coef as nat % pow10(w);
        let i = (v.coef - frac) as nat;
        if frac == 0 {
            v.triple()
        } else if mode == RoundingMode::Up || (mode == RoundingMode::HalfUp && frac >= half_pow10(
            w,
        )) {
            normalized(v.sign as int, i + pow10(w), v.exp as int)
        } else {
            (v.sign as int, i, v.exp as int)
        }
    }
}

impl Value {
    /// Rounds to an integer as `mode` says.
    pub fn to_integer(&self, mode: RoundingMode) -> (r: Value)
        requires
            self.wf(),
        ensures
            r.triple() == integer_of(*self, mode),
            r.wf(),
    {
        if (self.sign != SIGN_POS && self.sign != SIGN_NEG) || self.exp >= DIGITSMAX as i32 {
            return *self;
        }
        if self.exp <= 0 {
            if mode == RoundingMode::Up || (mode == RoundingMode::HalfUp && self.exp == 0
                && self.coef >= COEF_MIN * 5) {
                return Value::raw(self.sign, COEF_MIN, 1);
            }
            return Value::zero();
        }
        let e = (DIGITSMAX - self.exp as u32) as usize;
        let p = pow10_at(e);
        proof {
            lemma_pow10_table();
            lemma_floor_multiple(self.coef as nat, e as nat);
        }
        let frac = self.coef % p;
        if frac == 0 {
            return *self;
        }
        let i = self.coef - frac;
        if mode == RoundingMode::Up || (mode == RoundingMode::HalfUp && frac >= half_pow10_at(e)) {
            return normalize(self.sign, i + p, self.exp);
        }
        Value::raw(self.sign, i, self.exp)
    }

    /// Rounds toward zero to an integer.
    pub fn trunc(&self) -> (r: Value)
        requires
            self.wf(),
        ensures
            r.triple() == integer_of(*self, RoundingMode::Down),
            r.wf(),
    {
        self.to_integer(RoundingMode::Down)
    }

    /// The number of digits before the decimal point.
    pub fn num_int_digits(&self) -> (r: i32)
        ensures
            r == self.exp,
    {
        self.exp
    }

    /// The number of significant digits of the coefficient, trailing
    /// zeros left out (zero for zero).
    pub fn num_digits(&self) -> (r: i32)
        ensures
            r == sig_digits(self.coef as nat),
            0 <= r <= 20,
    {
        let mut c = self.coef;
        while c != 0 && c % 10 == 0
            invariant
                sig_digits(c as nat) == sig_digits(self.coef as nat),
            decreases c,
        {
            c = c / 10;
        }
        if c == 0 {
            return 0;
        }
        (ilog10(c) + 1) as i32
    }

    /// The number of significant digits after the decimal point (negative
    /// where the last significant digit stands left of it).
    pub fn num_fractional_digits(&self) -> (r: i32)
        requires
            self.exp >= i32::MIN + 21,
        ensures
            r == sig_digits(self.coef as nat) - self.exp,
    {
        self.num_digits() - self.exp
    }
}

/// Digits of `c` without its trailing zeros; zero for zero.
pub open spec fn sig_digits(c: nat) -> int
    decreases c,
{
    if c == 0 {
        0
    } else if c % 10 == 0 {
        sig_digits(c / 10)
    } else {
        ndigits(c) as int
    }
}

} // verus!
