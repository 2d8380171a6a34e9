use vstd::prelude::*;
use vstd::arithmetic::div_mod::{lemma_fundamental_div_mod, lemma_fundamental_div_mod_converse, lemma_small_mod};

verus! {

/// `10^n`.
pub open spec fn pow10(n: nat) -> nat
    decreases n,
{
    if n == 0 {
        1
    } else {
        10 * pow10((n - 1) as nat)
    }
}

/// The exact midpoint of one unit at decimal position `n`: `10^n / 2`
/// (zero for position zero, where there is no digit below).
pub open spec fn half_pow10(n: nat) -> nat {
    if n == 0 {
        0
    } else {
        5 * pow10((n - 1) as nat)
    }
}

/// Number of decimal digits of `x` (one for zero).
pub open spec fn ndigits(x: nat) -> nat
    decreases x,
{
    if x < 10 {
        1
    } else {
        1 + ndigits(x / 10)
    }
}

pub proof fn lemma_pow10_positive(n: nat)
    ensures
        pow10(n) >= 1,
    decreases n,
{
    if n > 0 {
        lemma_pow10_positive((n - 1) as nat);
    }
}

pub proof fn lemma_pow10_add(a: nat, b: nat)
    ensures
        pow10(a + b) == pow10(a) * pow10(b),
    decreases a,
{
    if a > 0 {
        lemma_pow10_add((a - 1) as nat, b);
        assert(pow10(a + b) == 10 * pow10(((a - 1) as nat + b) as nat));
        let x = pow10((a - 1) as nat);
        let y = pow10(b);
        assert(pow10(a) * y == 10 * (x * y)) by (nonlinear_arith)
            requires
                pow10(a) == 10 * x,
        ;
        assert(pow10(a + b) == pow10(a) * y);
    } else {
        assert(pow10(0) == 1);
        let y = pow10(b);
        assert(pow10(a) * y == y) by (nonlinear_arith)
            requires
                pow10(a) == 1,
        ;
    }
}

pub proof fn lemma_pow10_mono(a: nat, b: nat)
    requires
        a <= b,
    ensures
        pow10(a) <= pow10(b),
    decreases b,
{
    if a < b {
        lemma_pow10_mono(a, (b - 1) as nat);
        lemma_pow10_positive((b - 1) as nat);
    }
}

pub proof fn lemma_pow10_table()
    ensures
        pow10(0) == 1,
        pow10(1) == 10,
        pow10(2) == 100,
        pow10(3) == 1000,
        pow10(4) == 10000,
        pow10(5) == 100000,
        pow10(6) == 1000000,
        pow10(7) == 10000000,
        pow10(8) == 100000000,
        pow10(9) == 1000000000,
        pow10(10) == 10000000000,
        pow10(11) == 100000000000,
        pow10(12) == 1000000000000,
        pow10(13) == 10000000000000,
        pow10(14) == 100000000000000,
        pow10(15) == 1000000000000000,
        pow10(16) == 10000000000000000,
        pow10(17) == 100000000000000000,
        pow10(18) == 1000000000000000000,
        pow10(19) == 10000000000000000000,
        pow10(20) == 100000000000000000000,
{
    reveal_with_fuel(pow10, 21);
}

/// `10^(d-1) <= x < 10^d` where `d` is the digit count of a positive `x`.
pub proof fn lemma_ndigits_bounds(x: nat)
    requires
        x >= 1,
    ensures
        ndigits(x) >= 1,
        pow10((ndigits(x) - 1) as nat) <= x,
        x < pow10(ndigits(x)),
    decreases x,
{
    if x >= 10 {
        lemma_ndigits_bounds(x / 10);
    }
}

/// The digit count is the `d` with `10^(d-1) <= x < 10^d`.
pub proof fn lemma_ndigits_unique(x: nat, d: nat)
    requires
        d >= 1,
        pow10((d - 1) as nat) <= x,
        x < pow10(d),
    ensures
        ndigits(x) == d,
{
    lemma_ndigits_bounds(x);
    let n = ndigits(x);
    if n < d {
        lemma_pow10_mono(n, (d - 1) as nat);
    } else if n > d {
        lemma_pow10_mono(d, (n - 1) as nat);
    }
}

/// `10^i` for `i` in `0..=18`.
pub fn pow10_at(i: usize) -> (r: u64)
    requires
        i <= 18,
    ensures
        r == pow10(i as nat),
{
    proof {
        lemma_pow10_table();
    }
    let table: [u64; 19] = [
        1,
        10,
        100,
        1000,
        10000,
        100000,
        1000000,
        10000000,
        100000000,
        1000000000,
        10000000000,
        100000000000,
        1000000000000,
        10000000000000,
        100000000000000,
        1000000000000000,
        10000000000000000,
        100000000000000000,
        1000000000000000000,
    ];
    table[i]
}

/// The half-up rounding threshold for position `i` in `0..=15`.
pub fn half_pow10_at(i: usize) -> (r: u64)
    requires
        i <= 15,
    ensures
        r == half_pow10(i as nat),
{
    proof {
        lemma_pow10_table();
    }
    let table: [u64; 16] = [
        0,
        5,
        50,
        500,
        5000,
        50000,
        500000,
        5000000,
        50000000,
        500000000,
        5000000000,
        50000000000,
        500000000000,
        5000000000000,
        50000000000000,
        500000000000000,
    ];
    table[i]
}

/// `floor(log10(x))` for positive `x`, zero for zero.
pub open spec fn log10_floor(x: nat) -> nat {
    if x == 0 {
        0
    } else {
        (ndigits(x) - 1) as nat
    }
}

/// How many decimal places `x` must move left to fill sixteen digits.
pub open spec fn shift_of(x: nat) -> nat {
    if log10_floor(x) > 15 {
        0
    } else {
        (15 - log10_floor(x)) as nat
    }
}

/// The digit of `c` at weight `10^w`, as an ASCII byte.
pub open spec fn digit_at(c: nat, w: nat) -> u8 {
    ((c / pow10(w)) % 10 + 48) as u8
}

/// Digit `j` of the sixteen-digit reading of `c` weighs `10^(15 - j)`; the
/// digits of `c` stripped of trailing zeros are the first `n` of them, with
/// `n` the least count after which only zeros remain.
pub open spec fn is_digit_string(c: nat, d: Seq<u8>) -> bool {
    &&& d.len() <= 16
    &&& forall|j: int| 0 <= j < d.len() ==> #[trigger] d[j] == digit_at(c, (15 - j) as nat)
    &&& c % pow10((16 - d.len()) as nat) == 0
    &&& d.len() > 0 ==> c % pow10((17 - d.len()) as nat) != 0
}

/// Splitting off one more decimal place: for `p > 0`,
/// `(c mod 10p) / p` is the digit at `p`, and `(c mod 10p) mod p == c mod p`.
pub proof fn lemma_digit_step(c: nat, p: nat)
    requires
        p > 0,
    ensures
        (c % (10 * p)) / p == (c / p) % 10,
        (c % (10 * p)) % p == c % p,
{
    let big = 10 * p;
    lemma_fundamental_div_mod(c as int, big as int);
    lemma_fundamental_div_mod(c as int, p as int);
    let q = c / big;
    let r = c % big;
    lemma_fundamental_div_mod(r as int, p as int);
    let d = r / p;
    let rr = r % p;
    assert(r < big);
    assert(d < 10) by (nonlinear_arith)
        requires
            r == p * d + rr,
            0 <= rr,
            r < 10 * p,
            p > 0,
            d >= 0,
    ;
    assert(c == (10 * q + d) * p + rr) by (nonlinear_arith)
        requires
            c == big * q + r,
            r == p * d + rr,
            big == 10 * p,
    ;
    lemma_fundamental_div_mod_converse(c as int, p as int, (10 * q + d) as int, rr as int);
    lemma_fundamental_div_mod_converse((c / p) as int, 10, q as int, d as int);
}

/// `floor(log10(x))`, zero for zero.
pub fn ilog10(x: u64) -> (r: u32)
    ensures
        r == log10_floor(x as nat),
        r <= 19,
{
    if x == 0 {
        return 0;
    }
    proof {
        lemma_pow10_table();
        lemma_ndigits_bounds(x as nat);
    }
    let mut y: usize = 0;
    while y < 18 && x >= pow10_at(y + 1)
        invariant
            y <= 18,
            pow10(y as nat) <= x,
        decreases 18 - y,
    {
        y = y + 1;
    }
    if y == 18 && x >= 10000000000000000000 {
        proof {
            lemma_ndigits_unique(x as nat, 20);
        }
        return 19;
    }
    proof {
        if y == 18 {
            lemma_ndigits_unique(x as nat, 19);
        } else {
            lemma_ndigits_unique(x as nat, (y + 1) as nat);
        }
    }
    y as u32
}

/// The left shift, in decimal places, that brings `x` to sixteen digits
/// (zero where it already has sixteen or more).
pub fn max_shift(x: u64) -> (r: u32)
    ensures
        r == shift_of(x as nat),
        r <= 15,
{
    let i = ilog10(x);
    if i > 15 {
        return 0;
    }
    15 - i
}

/// The ASCII digits of a coefficient of at most sixteen digits, read from
/// the weight `10^15` down, with trailing zeros dropped.
pub fn get_digits(coef: u64) -> (r: Vec<u8>)
    requires
        coef <= 9999999999999999,
    ensures
        is_digit_string(coef as nat, r@),
{
    proof {
        lemma_pow10_table();
        lemma_small_mod(coef as nat, pow10(16));
    }
    let mut digits: Vec<u8> = Vec::new();
    let mut rem = coef;
    let mut k: usize = 0;
    while rem != 0
        invariant
            k <= 16,
            digits@.len() == k,
            rem == coef as nat % pow10((16 - k) as nat),
            forall|j: int| 0 <= j < k ==> #[trigger] digits@[j] == digit_at(coef as nat, (15 - j) as nat),
            k > 0 ==> coef as nat % pow10((17 - k) as nat) != 0,
        decreases 16 - k,
    {
        if k == 16 {
            assert(pow10(0) == 1);
            assert(false);
        }
        let p = pow10_at(15 - k);
        proof {
            lemma_pow10_positive((15 - k) as nat);
            assert(pow10((16 - k) as nat) == 10 * pow10((15 - k) as nat));
            lemma_digit_step(coef as nat, p as nat);
            assert(rem / p < 10) by {
                lemma_fundamental_div_mod((coef as nat / p as nat) as int, 10);
            }
        }
        let d = (rem / p) as u8;
        digits.push(d + 48);
        rem = rem % p;
        k = k + 1;
    }
    assert(pow10(0) == 1);
    digits
}

/// Moving a number of at most sixteen digits left by its shift fills
/// exactly sixteen digits.
pub proof fn lemma_widen(c: nat)
    requires
        1 <= c < pow10(16),
    ensures
        pow10(15) <= c * pow10(shift_of(c)) < pow10(16),
        shift_of(c) + ndigits(c) == 16,
{
    lemma_ndigits_bounds(c);
    let d = ndigits(c);
    if d > 16 {
        lemma_pow10_mono(16, (d - 1) as nat);
    }
    let p = (16 - d) as nat;
    assert(shift_of(c) == p);
    lemma_pow10_add((d - 1) as nat, p);
    lemma_pow10_add(d, p);
    let lo = pow10((d - 1) as nat);
    let hi = pow10(d);
    let m = pow10(p);
    lemma_pow10_positive(p);
    assert(lo * m <= c * m && c * m < hi * m) by (nonlinear_arith)
        requires
            lo <= c,
            c < hi,
            m >= 1,
    ;
    assert((d - 1) as nat + p == 15);
}

/// A coefficient of sixteen digits cut down to a multiple of `10^w`
/// (`w <= 15`) keeps sixteen digits.
pub proof fn lemma_floor_multiple(c: nat, w: nat)
    requires
        pow10(15) <= c,
        w <= 15,
    ensures
        c - c % pow10(w) >= pow10(15),
        c % pow10(w) < pow10(w),
        ((c - c % pow10(w)) as nat) % pow10(w) == 0,
{
    let p = pow10(w);
    lemma_pow10_positive(w);
    lemma_pow10_add((15 - w) as nat, w);
    let m = pow10((15 - w) as nat);
    lemma_fundamental_div_mod(c as int, p as int);
    let q = c / p;
    let r = c % p;
    assert(q * p >= m * p) by (nonlinear_arith)
        requires
            c == p * q + r,
            0 <= r < p,
            m * p <= c,
            q >= 0,
    ;
    assert(pow10(15) == m * p) by {
        assert((15 - w) as nat + w == 15);
    }
    assert(c - r == q * p) by (nonlinear_arith)
        requires
            c == p * q + r,
    ;
    lemma_fundamental_div_mod_converse((q * p) as int, p as int, q as int, 0);
}

} // verus!
