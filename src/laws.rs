use vstd::prelude::*;
use vstd::arithmetic::div_mod::{lemma_fundamental_div_mod, lemma_fundamental_div_mod_converse};
use crate::power::{
    pow10, ndigits, shift_of, lemma_widen, lemma_pow10_table, lemma_ndigits_unique,
    lemma_ndigits_bounds, lemma_pow10_positive, lemma_pow10_add, lemma_floor_multiple,
};
use crate::value::{
    Value, normalized, rounded, of_triple, from_int, compare, inf_of, lemma_rounded_canonical,
};
use crate::reader::{is_digit, lower, digit_run, digits_val, lead_zeros, window, int_end, has_point, has_exp, lemma_digit_run_end, sign_at, matches_at, numeral_digits, numeral_end, numeral_coef, numeral_exp, exp_end, exp_value};
use crate::parse::{parse_spec, numeral_part};

verus! {

/// Every finite non-zero triple that normalization gives has a coefficient
/// of exactly sixteen digits, and normalization always gives a well-formed
/// value.
pub proof fn lemma_normalized_canonical(sign: int, c: nat, e: int)
    requires
        -128 <= sign <= 127,
        c <= u64::MAX,
        c > 9999999999999999 ==> e <= i32::MAX - 4,
        c < 1000000000000000 ==> e >= i32::MIN + 15,
    ensures
        of_triple(normalized(sign, c, e)).wf(),
        (sign == 1 || sign == -1) && c > 0 ==> 1000000000000000 <= normalized(sign, c, e).1
            <= 9999999999999999,
{
    lemma_pow10_table();
    if (sign == 1 || sign == -1) && c > 0 {
        if c > 9999999999999999 {
            lemma_rounded_canonical(c, e);
            lemma_rounded_steps(c, e);
        } else {
            lemma_widen(c);
        }
    }
}

/// From a `u64`, rounding takes at most four steps.
proof fn lemma_rounded_steps(c: nat, e: int)
    requires
        9999999999999999 < c <= u64::MAX,
    ensures
        e < rounded(c, e).1 <= e + 4,
{
    let c1 = (c + 5) / 10;
    let c2 = (c1 + 5) / 10;
    let c3 = (c2 + 5) / 10;
    let c4 = (c3 + 5) / 10;
    assert(rounded(c, e) == rounded(c1, e + 1));
    if c1 > 9999999999999999 {
        assert(rounded(c1, e + 1) == rounded(c2, e + 2));
        if c2 > 9999999999999999 {
            assert(rounded(c2, e + 2) == rounded(c3, e + 3));
            if c3 > 9999999999999999 {
                assert(rounded(c3, e + 3) == rounded(c4, e + 4));
                assert(c4 <= 9999999999999999);
            }
        }
    }
}

/// Negative infinity lies below, and positive infinity above, every finite
/// value; zero equals exactly the zero value among well-formed values.
pub proof fn lemma_sign_order(v: Value)
    requires
        v.wf(),
    ensures
        (v == of_triple((0, 0, 0))) <==> v.sign == 0,
        (v.sign == 1 || v.sign == -1 || v.sign == 0) ==> compare(of_triple(inf_of(-2)), v)
            == core::cmp::Ordering::Less && compare(v, of_triple(inf_of(2)))
            == core::cmp::Ordering::Less,
        (compare(v, of_triple((0, 0, 0))) == core::cmp::Ordering::Equal) <==> v.triple() == (
            0int,
            0nat,
            0int,
        ),
{
}

/// Normalizing a triple that is already canonical gives it back unchanged.
pub proof fn lemma_normalize_idempotent(v: Value)
    requires
        v.wf(),
    ensures
        normalized(v.sign as int, v.coef as nat, v.exp as int) == v.triple(),
{
    if v.sign == 1 || v.sign == -1 {
        lemma_pow10_table();
        lemma_ndigits_unique(v.coef as nat, 16);
        assert(shift_of(v.coef as nat) == 0);
        assert(v.coef * pow10(0) == v.coef);
    }
}

/// Two positive integers of equal digit count, at most sixteen digits,
/// keep their order as values.
pub proof fn lemma_order_of_integers(x: nat, y: nat)
    requires
        0 < x < y <= 9999999999999999,
        ndigits(x) == ndigits(y),
    ensures
        compare(of_triple(from_int(x as int)), of_triple(from_int(y as int)))
            == core::cmp::Ordering::Less,
{
    lemma_pow10_table();
    lemma_widen(x);
    lemma_widen(y);
    let p = shift_of(x);
    assert(shift_of(y) == p);
    let m = pow10(p);
    assert(x * m < y * m) by (nonlinear_arith)
        requires
            x < y,
            m >= 1,
    ;
    lemma_normalized_canonical(1, x, 16);
    lemma_normalized_canonical(1, y, 16);
}

proof fn lemma_lead_zeros(d: Seq<u8>)
    ensures
        lead_zeros(d) <= d.len(),
        forall|j: int| 0 <= j < lead_zeros(d) ==> d[j] == 48,
        lead_zeros(d) < d.len() ==> d[lead_zeros(d) as int] != 48,
    decreases d.len(),
{
    if d.len() > 0 {
        let e = d.drop_last();
        lemma_lead_zeros(e);
        assert forall|j: int| 0 <= j < e.len() implies d[j] == e[j] by {}
    }
}

proof fn lemma_run_digits(s: Seq<u8>, i: int)
    requires
        0 <= i,
    ensures
        i + digit_run(s, i) <= s.len() || digit_run(s, i) == 0,
        forall|k: int| i <= k < i + digit_run(s, i) ==> is_digit(#[trigger] s[k]),
    decreases s.len() - i,
{
    if 0 <= i < s.len() && is_digit(s[i]) {
        lemma_run_digits(s, i + 1);
    }
}

proof fn lemma_digits_val_positive(x: Seq<u8>)
    requires
        x.len() > 0,
        49 <= x[0] <= 57,
    ensures
        digits_val(x) >= 1,
    decreases x.len(),
{
    if x.len() > 1 {
        lemma_digits_val_positive(x.drop_last());
    }
}

/// The coefficient kept from a numeral is zero exactly when every digit of
/// the numeral is zero.
pub proof fn lemma_numeral_coef_zero(s: Seq<u8>, i: int)
    requires
        0 <= i <= s.len(),
    ensures
        numeral_coef(s, i) == 0 <==> forall|j: int|
            0 <= j < numeral_digits(s, i).len() ==> #[trigger] numeral_digits(s, i)[j] == 48,
{
    let d = numeral_digits(s, i);
    let lz = lead_zeros(d);
    lemma_lead_zeros(d);
    lemma_run_digits(s, i);
    let ie = int_end(s, i);
    if has_point(s, i) {
        lemma_run_digits(s, ie + 1);
    }
    assert forall|j: int| 0 <= j < d.len() implies is_digit(#[trigger] d[j]) by {
        if j < ie - i {
            assert(d[j] == s[i + j]);
        } else {
            assert(d[j] == s[ie + 1 + (j - (ie - i))]);
        }
    }
    let sig = d.skip(lz as int);
    if lz == d.len() {
        assert(sig.len() == 0);
        assert(sig.take(0) =~= Seq::<u8>::empty());
        assert(digits_val(sig.take(0)) == 0);
        assert(window(sig) == 0 * pow10(16));
    } else {
        let t = if sig.len() <= 16 {
            sig.len()
        } else {
            16
        };
        let x = sig.take(t as int);
        assert(x[0] == d[lz as int]);
        assert(is_digit(d[lz as int]));
        lemma_digits_val_positive(x);
        lemma_pow10_positive((16 - t) as nat);
        let a = digits_val(x);
        let m = pow10((16 - t) as nat);
        assert(a * m >= 1) by (nonlinear_arith)
            requires
                a >= 1,
                m >= 1,
        ;
        assert(window(sig) == a * m);
    }
}

/// A numeral (with an optional `%`) whose digits include a non-zero one
/// parses to the infinity of its sign when its exponent with the suffix lies
/// above 127, and to zero when it lies below -128; a numeral whose digits are
/// all zero parses to zero.
pub proof fn lemma_exponent_collapse(b: Seq<u8>)
    requires
        b.len() > 0,
        ({
            let t = numeral_part(b);
            let i0 = sign_at(t, 0).1;
            &&& !matches_at(t, i0, seq![105u8, 110u8, 102u8])
            &&& numeral_digits(t, i0).len() > 0
            &&& exp_end(t, numeral_end(t, i0)) == t.len()
        }),
    ensures
        ({
            let t = numeral_part(b);
            let i0 = sign_at(t, 0).1;
            let d = numeral_digits(t, i0);
            let e = numeral_exp(t, i0) + exp_value(t, numeral_end(t, i0));
            let nonzero = exists|j: int| 0 <= j < d.len() && d[j] != 48;
            &&& nonzero && e > 127 ==> parse_spec(b) == Ok::<
                (int, nat, int),
                crate::parse::ErrorKind,
            >(inf_of(2 * sign_at(t, 0).0))
            &&& nonzero && e < -128 ==> parse_spec(b) == Ok::<
                (int, nat, int),
                crate::parse::ErrorKind,
            >((0int, 0nat, 0int))
            &&& !nonzero ==> parse_spec(b) == Ok::<(int, nat, int), crate::parse::ErrorKind>(
                (0int, 0nat, 0int),
            )
        }),
{
    let t = numeral_part(b);
    let i0 = sign_at(t, 0).1;
    let d = numeral_digits(t, i0);
    lemma_numeral_coef_zero(t, i0);
    if exists|j: int| 0 <= j < d.len() && d[j] != 48 {
        let j = choose|j: int| 0 <= j < d.len() && d[j] != 48;
        assert(!(d[j] == 48));
        assert(numeral_coef(t, i0) != 0);
    } else {
        assert forall|j: int| 0 <= j < d.len() implies #[trigger] d[j] == 48 by {}
        assert(numeral_coef(t, i0) == 0);
    }
}

/// The decimal digits of `m`, most significant first, with no leading zero.
pub open spec fn digits_of(m: nat) -> Seq<u8>
    decreases m,
{
    if m < 10 {
        seq![(m + 48) as u8]
    } else {
        digits_of(m / 10).push((m % 10 + 48) as u8)
    }
}

/// The plain decimal text of an integer: a `-` for a negative one, then
/// its digits.
pub open spec fn decimal_text(n: int) -> Seq<u8> {
    if n < 0 {
        seq![45u8] + digits_of((-n) as nat)
    } else {
        digits_of(n as nat)
    }
}

proof fn lemma_digits_of(m: nat)
    ensures
        digits_of(m).len() == ndigits(m),
        forall|j: int| 0 <= j < digits_of(m).len() ==> is_digit(#[trigger] digits_of(m)[j]),
        digits_val(digits_of(m)) == m,
        m > 0 ==> digits_of(m)[0] != 48,
    decreases m,
{
    if m >= 10 {
        lemma_digits_of(m / 10);
        let d = digits_of(m);
        assert(d.drop_last() =~= digits_of(m / 10));
        assert(d.last() == (m % 10 + 48) as u8);
        assert((d.last() - 48) as nat == m % 10);
        assert(digits_val(d) == digits_val(digits_of(m / 10)) * 10 + m % 10);
        if m / 10 > 0 {
            assert(d[0] == digits_of(m / 10)[0]);
        }
    } else {
        let d = digits_of(m);
        assert(d.drop_last() =~= Seq::<u8>::empty());
        assert(digits_val(d.drop_last()) == 0);
        assert((d.last() - 48) as nat == m);
    }
}

proof fn lemma_no_lead_zeros(d: Seq<u8>)
    requires
        d.len() > 0,
        d[0] != 48,
    ensures
        lead_zeros(d) == 0,
    decreases d.len(),
{
    if d.len() > 1 {
        assert(d.drop_last()[0] == d[0]);
        lemma_no_lead_zeros(d.drop_last());
    } else {
        assert(d.drop_last() =~= Seq::<u8>::empty());
        assert(lead_zeros(d.drop_last()) == 0);
    }
}

/// The plain decimal text of an integer of at most sixteen digits parses to
/// the value that the integer converts to.
pub proof fn lemma_integer_round_trip(n: int)
    requires
        -9999999999999999 <= n <= 9999999999999999,
    ensures
        parse_spec(decimal_text(n)) == Ok::<(int, nat, int), crate::parse::ErrorKind>(from_int(n)),
{
    lemma_pow10_table();
    let m: nat = if n < 0 {
        (-n) as nat
    } else {
        n as nat
    };
    let t = decimal_text(n);
    let d = digits_of(m);
    let i0: int = if n < 0 {
        1
    } else {
        0
    };
    lemma_digits_of(m);
    assert(t.subrange(i0, t.len() as int) =~= d);
    assert forall|k: int| i0 <= k < t.len() implies is_digit(#[trigger] t[k]) by {
        assert(t[k] == d[k - i0]);
    }
    assert(is_digit(t[i0]));
    assert(t.last() == d.last());
    assert(sign_at(t, 0) == (if n < 0 {
        (-1int, 1int)
    } else {
        (1int, 0int)
    }));
    lemma_digit_run_end(t, i0, t.len() as int);
    assert(int_end(t, i0) == t.len());
    assert(!has_point(t, i0));
    assert(numeral_end(t, i0) == t.len());
    assert(!has_exp(t, t.len() as int));
    assert(numeral_digits(t, i0) =~= d);
    assert(exp_value(t, t.len() as int) == 0);
    if matches_at(t, i0, seq![105u8, 110u8, 102u8]) {
        assert(lower(t[i0 + 0]) == lower(105u8));
    }
    if m == 0 {
        assert(d =~= seq![48u8]);
        assert(lead_zeros(d) == 1) by {
            assert(d.drop_last() =~= Seq::<u8>::empty());
            assert(lead_zeros(d.drop_last()) == 0);
        }
        assert(d.skip(1) =~= Seq::<u8>::empty());
        assert(d.skip(1).take(0) =~= Seq::<u8>::empty());
        assert(digits_val(d.skip(1).take(0)) == 0);
        assert(d.skip(1).len() == 0);
        assert(window(d.skip(1)) == digits_val(d.skip(1).take(0)) * pow10(16));
        assert(window(d.skip(1)) == 0);
        assert(numeral_coef(t, i0) == 0);
    } else {
        lemma_no_lead_zeros(d);
        lemma_ndigits_bounds(m);
        let l = ndigits(m);
        if l > 16 {
            crate::power::lemma_pow10_mono(16, (l - 1) as nat);
        }
        assert(d.skip(0) =~= d);
        assert(d.take(l as int) =~= d);
        assert(numeral_coef(t, i0) == m * pow10((16 - l) as nat));
        assert(numeral_exp(t, i0) == l);
        lemma_widen(m);
        let c = m * pow10((16 - l) as nat);
        lemma_ndigits_unique(c, 16);
        assert(shift_of(c) == 0);
        assert(c * pow10(0) == c);
    }
}

/// The magnitude of a finite value in units of `10^(base - 16)`, for a
/// `base` at most its exponent.
pub open spec fn scaled(v: Value, base: int) -> nat {
    v.coef as nat * pow10((v.exp - base) as nat)
}

proof fn lemma_scaled_self(v: Value)
    ensures
        scaled(v, v.exp as int) == v.coef,
{
    let c = v.coef as nat;
    assert(pow10(0) == 1);
    assert(c * pow10(0) == c) by (nonlinear_arith)
        requires
            pow10(0) == 1,
    ;
}

/// Between well-formed finite values of one sign, the comparison agrees
/// with their magnitudes, counted from the smaller exponent: a positive
/// value is less when its magnitude is less, a negative one when it is
/// greater.
pub proof fn lemma_compare_by_magnitude(a: Value, b: Value)
    requires
        a.wf(),
        b.wf(),
        a.sign == b.sign,
        a.sign == 1 || a.sign == -1,
    ensures
        ({
            let base = if a.exp < b.exp {
                a.exp as int
            } else {
                b.exp as int
            };
            &&& (compare(a, b) == core::cmp::Ordering::Less) <==> (if a.sign == 1 {
                scaled(a, base) < scaled(b, base)
            } else {
                scaled(a, base) > scaled(b, base)
            })
            &&& (compare(a, b) == core::cmp::Ordering::Equal) <==> scaled(a, base) == scaled(
                b,
                base,
            )
        }),
{
    lemma_pow10_table();
    if a.exp == b.exp {
        lemma_scaled_self(a);
        assert(scaled(b, a.exp as int) == b.coef);
    } else if a.exp < b.exp {
        let d = (b.exp - a.exp) as nat;
        crate::power::lemma_pow10_mono(1, d);
        lemma_scaled_self(a);
        let m = pow10(d);
        assert(b.coef * m >= 10000000000000000) by (nonlinear_arith)
            requires
                b.coef >= 1000000000000000,
                m >= 10,
        ;
    } else {
        let d = (a.exp - b.exp) as nat;
        crate::power::lemma_pow10_mono(1, d);
        lemma_scaled_self(b);
        let m = pow10(d);
        assert(a.coef * m >= 10000000000000000) by (nonlinear_arith)
            requires
                a.coef >= 1000000000000000,
                m >= 10,
        ;
    }
}

/// The integer that a triple with no fractional digit stands for, by
/// magnitude.
pub open spec fn int_magnitude(t: (int, nat, int)) -> nat {
    if t.0 == 0 || t.2 < 1 {
        0
    } else if t.2 >= 16 {
        t.1 * pow10((t.2 - 16) as nat)
    } else {
        t.1 / pow10((16 - t.2) as nat)
    }
}

/// Whether a triple has no fractional digit.
pub open spec fn is_integral(t: (int, nat, int)) -> bool {
    t.0 == 0 || t.2 >= 16 || (t.2 >= 1 && t.1 % pow10((16 - t.2) as nat) == 0)
}

/// Rounding a well-formed finite value with a fractional place to an
/// integer keeps its sign (or gives zero) and gives an integer `n` whose
/// relation to the magnitude `m = coef / 10^(16 - exp)` is: `n <= m < n + 1`
/// toward zero, `n - 1 < m <= n` away from zero, and
/// `n - 1/2 <= m < n + 1/2` half up.
pub proof fn lemma_integer_rounds(v: Value, mode: crate::value::RoundingMode)
    requires
        v.wf(),
        v.sign == 1 || v.sign == -1,
        v.exp < 16,
    ensures
        ({
            let t = crate::value::integer_of(v, mode);
            let n = int_magnitude(t);
            let s = pow10((16 - v.exp) as nat);
            let c = v.coef as nat;
            &&& is_integral(t)
            &&& t.0 == v.sign || t == (0int, 0nat, 0int)
            &&& mode == crate::value::RoundingMode::Down ==> n * s <= c < (n + 1) * s
            &&& mode == crate::value::RoundingMode::Up ==> (n - 1) * s < c <= n * s
            &&& mode == crate::value::RoundingMode::HalfUp ==> (2 * n - 1) * s <= 2 * c < (2
                * n + 1) * s
        }),
{
    lemma_pow10_table();
    let t = crate::value::integer_of(v, mode);
    let n = int_magnitude(t);
    let s = pow10((16 - v.exp) as nat);
    let c = v.coef as nat;
    if v.exp <= 0 {
        crate::power::lemma_pow10_mono(16, (16 - v.exp) as nat);
        if v.exp < 0 {
            crate::power::lemma_pow10_mono(17, (16 - v.exp) as nat);
        }
        if t.0 != 0 {
            let one = (v.sign as int, 1000000000000000nat, 1int);
            assert(t == one);
            assert(pow10((16 - one.2) as nat) == 1000000000000000);
            assert(int_magnitude(one) == 1000000000000000nat / 1000000000000000nat);
            assert(n == 1);
        } else {
            assert(n == 0);
        }
        assert(n * s == if n == 1 { s } else { 0 }) by (nonlinear_arith)
            requires
                n == 0 || n == 1,
        ;
        lemma_brackets(n as int, s as int);
        assert(c < 10000000000000000);
    } else {
        let w = (16 - v.exp) as nat;
        lemma_pow10_positive(w);
        lemma_fundamental_div_mod(c as int, s as int);
        let q = c / s;
        let f = c % s;
        lemma_floor_multiple(c, w);
        assert(c - f == q * s) by (nonlinear_arith)
            requires
                c == s * q + f,
        ;
        lemma_fundamental_div_mod_converse((q * s) as int, s as int, q as int, 0);
        assert(s == 10 * pow10((w - 1) as nat));
        assert(crate::power::half_pow10(w) * 2 == s);
        lemma_pow10_add((v.exp - 1) as nat, w);
        assert(pow10(15) == pow10((v.exp - 1) as nat) * s);
        let up = (q * s + s) as nat;
        if f != 0 && (mode == crate::value::RoundingMode::Up || (mode
            == crate::value::RoundingMode::HalfUp && f >= crate::power::half_pow10(w))) {
            assert((q + 1) * s == q * s + s) by (nonlinear_arith);
            lemma_fundamental_div_mod_converse(up as int, s as int, (q + 1) as int, 0);
            if up > 9999999999999999 {
                lemma_pow10_add(v.exp as nat, w);
                assert(pow10(16) == pow10(v.exp as nat) * s);
                assert(q < pow10(v.exp as nat)) by (nonlinear_arith)
                    requires
                        q * s <= c,
                        c < 10000000000000000,
                        10000000000000000 == pow10(v.exp as nat) * s,
                        s > 0,
                ;
                assert(up <= 10000000000000000) by (nonlinear_arith)
                    requires
                        up == q * s + s,
                        q + 1 <= pow10(v.exp as nat),
                        10000000000000000 == pow10(v.exp as nat) * s,
                ;
                assert(up == 10000000000000000);
                assert(crate::value::rounded(up, v.exp as int) == crate::value::rounded(
                    1000000000000000,
                    v.exp + 1,
                ));
                let tt = (v.sign as int, 1000000000000000nat, v.exp + 1);
                assert(t == tt);
                let pe = pow10(v.exp as nat);
                assert(q + 1 == pe) by (nonlinear_arith)
                    requires
                        (q + 1) * s == q * s + s,
                        q * s + s == 10000000000000000,
                        10000000000000000 == pe * s,
                        s > 0,
                ;
                if v.exp + 1 < 16 {
                    let r = (15 - v.exp) as nat;
                    lemma_pow10_add(v.exp as nat, r);
                    assert(v.exp as nat + r == 15);
                    lemma_pow10_positive(r);
                    lemma_fundamental_div_mod_converse(
                        1000000000000000,
                        pow10(r) as int,
                        pe as int,
                        0,
                    );
                    assert((16 - tt.2) as nat == r);
                    assert(int_magnitude(tt) == 1000000000000000nat / pow10(r));
                } else {
                    assert(int_magnitude(tt) == 1000000000000000nat * pow10(0));
                }
                assert(n == int_magnitude(tt));
                assert(n == q + 1);
            } else {
                crate::power::lemma_ndigits_unique(up, 16);
                assert(crate::power::shift_of(up) == 0);
                assert(up * pow10(0) == up);
                assert(t == (v.sign as int, up, v.exp as int));
                assert(up / s == q + 1);
                let tt = (v.sign as int, up, v.exp as int);
                assert(int_magnitude(tt) == up / s);
                assert(t == tt);
                assert(n == int_magnitude(tt));
                assert(n == q + 1);
            }
        } else if f == 0 {
            assert(n == q);
        } else {
            assert(t == (v.sign as int, (q * s) as nat, v.exp as int));
            assert(n == q);
        }
        lemma_brackets(n as int, s as int);
        assert((q + 1) * s == q * s + s) by (nonlinear_arith);
        assert(n == q || n == q + 1);
        if n == q {
            assert(n * s == q * s);
        } else {
            assert(n * s == q * s + s);
        }
        assert(c == q * s + f);
        let h = crate::power::half_pow10(w);
        if mode == crate::value::RoundingMode::Down {
            assert(n == q);
            assert(n * s <= c < (n + 1) * s);
        } else if mode == crate::value::RoundingMode::Up {
            assert(f == 0 ==> n == q);
            assert(f != 0 ==> n == q + 1);
            assert((n - 1) * s < c <= n * s);
        } else {
            assert(f >= h && f != 0 ==> n == q + 1);
            assert(f < h || f == 0 ==> n == q);
            assert((2 * n - 1) * s <= 2 * c < (2 * n + 1) * s);
        }
    }
}

proof fn lemma_brackets(n: int, s: int)
    ensures
        (n + 1) * s == n * s + s,
        (n - 1) * s == n * s - s,
        (2 * n - 1) * s == 2 * (n * s) - s,
        (2 * n + 1) * s == 2 * (n * s) + s,
{
    assert((n + 1) * s == n * s + s) by (nonlinear_arith);
    assert((n - 1) * s == n * s - s) by (nonlinear_arith);
    assert((2 * n - 1) * s == 2 * (n * s) - s) by (nonlinear_arith);
    assert((2 * n + 1) * s == 2 * (n * s) + s) by (nonlinear_arith);
}

} // verus!
