use std::str::FromStr;
use decimal::{
    get_digits, inf, normalize, ErrorKind, RoundingMode, Value, COEF_MAX, COEF_MIN, SIGN_NEG,
    SIGN_NEG_INF, SIGN_POS, SIGN_POS_INF, SIGN_ZERO,
};

fn p(s: &str) -> Value {
    Value::parse(s).unwrap()
}

fn triple(v: Value) -> (i8, u64, i32) {
    (v.sign, v.coef, v.exp)
}

#[test]
fn conversion() {
    let v = Value::from(123456789);
    assert_eq!(v.sign, SIGN_POS);
    let digits = get_digits(v.coef);
    assert_eq!(digits, "123456789".as_bytes());
    assert_eq!(v.exp, 9);

    let v1 = Value::from(-123456789);
    assert_eq!(v1.sign, SIGN_NEG);
    assert_eq!(v1.exp, 9);
    assert!(v1 < v);

    let v = Value::from(0);
    assert_eq!(v.coef, 0);
    assert_eq!(v.sign, SIGN_ZERO);
    assert_eq!(v.exp, 0);
    assert_eq!(v, Value::zero());
}

#[test]
fn from_unsigned_and_wide_integers() {
    assert_eq!(triple(Value::from(1u64)), (SIGN_POS, COEF_MIN, 1));
    assert_eq!(triple(Value::from(u64::MAX)), (SIGN_POS, 1844674407370955, 20));
    assert_eq!(triple(Value::from(i64::MIN)), (SIGN_NEG, 9223372036854776, 19));
    assert_eq!(triple(Value::from(-1i32)), (SIGN_NEG, COEF_MIN, 1));
}

#[test]
fn normalize_rounds_half_up_and_widens() {
    assert_eq!(triple(normalize(SIGN_POS, 12, 2)), (SIGN_POS, 1200000000000000, 2 - 14));
    assert_eq!(triple(normalize(SIGN_POS, 99999999999999995, 0)), (SIGN_POS, 1000000000000000, 2));
    assert_eq!(triple(normalize(SIGN_NEG, 12345678901234564, 5)), (SIGN_NEG, 1234567890123456, 6));
    assert_eq!(triple(normalize(SIGN_NEG, 12345678901234565, 5)), (SIGN_NEG, 1234567890123457, 6));
    assert_eq!(normalize(SIGN_POS, 0, 3), Value::zero());
    assert_eq!(normalize(SIGN_POS_INF, 7, 3), Value::pos_inf());
    assert_eq!(normalize(SIGN_NEG_INF, 7, 3), Value::neg_inf());
    assert_eq!(normalize(5, 7, 3), Value::zero());
}

#[test]
fn normalize_is_idempotent_on_canonical_values() {
    let v = p("-123.456");
    assert_eq!(normalize(v.sign, v.coef, v.exp), v);
    assert_eq!(Value::new(v.coef, v.sign, v.exp), v);
}

#[test]
fn inf_names_only_infinite_signs() {
    assert_eq!(inf(SIGN_POS_INF), Value::pos_inf());
    assert_eq!(inf(SIGN_NEG_INF), Value::neg_inf());
    assert_eq!(inf(SIGN_POS), Value::zero());
    assert_eq!(Value::inf(SIGN_NEG), Value::zero());
}

#[test]
fn parse_plain_numerals() {
    assert_eq!(triple(p("123")), (SIGN_POS, 1230000000000000, 3));
    assert_eq!(triple(p("-0.05")), (SIGN_NEG, 5000000000000000, -1));
    assert_eq!(triple(p("+0012.50")), (SIGN_POS, 1250000000000000, 2));
    assert_eq!(triple(p(".5")), (SIGN_POS, 5000000000000000, 0));
    assert_eq!(triple(p("7.")), (SIGN_POS, 7000000000000000, 1));
    assert_eq!(triple(p("1.5e3")), (SIGN_POS, 1500000000000000, 4));
    assert_eq!(triple(p("15E-3")), (SIGN_POS, 1500000000000000, -1));
    assert_eq!(p("0"), Value::zero());
    assert_eq!(p("-0.000"), Value::zero());
}

#[test]
fn parse_drops_digits_past_sixteen() {
    assert_eq!(triple(p("12345678901234567899")), (SIGN_POS, 1234567890123456, 20));
    assert_eq!(triple(p("0.000123456789012345678")), (SIGN_POS, 1234567890123456, -3));
}

#[test]
fn parse_infinity_literal() {
    assert_eq!(p("inf"), Value::pos_inf());
    assert_eq!(p("-INF"), Value::neg_inf());
    assert_eq!(p("+Inf"), Value::pos_inf());
}

#[test]
fn parse_errors() {
    assert_eq!(Value::parse("").unwrap_err().kind(), ErrorKind::EmptyInput);
    assert_eq!(Value::parse(".").unwrap_err().kind(), ErrorKind::InvalidNumeral);
    assert_eq!(Value::parse("-").unwrap_err().kind(), ErrorKind::InvalidNumeral);
    assert_eq!(Value::parse("%").unwrap_err().kind(), ErrorKind::InvalidNumeral);
    assert_eq!(Value::parse("12x").unwrap_err().kind(), ErrorKind::InvalidNumeral);
    assert_eq!(Value::parse("1e").unwrap_err().kind(), ErrorKind::InvalidNumeral);
    assert_eq!(Value::parse("1.2.3").unwrap_err().kind(), ErrorKind::InvalidNumeral);
    assert_eq!(Value::parse("abc").unwrap_err().kind(), ErrorKind::InvalidNumeral);
}

#[test]
fn from_str_agrees_with_parse() {
    let v: Value = "42.5".parse().unwrap();
    assert_eq!(v, p("42.5"));
}

#[test]
fn percentage_scaling() {
    assert_eq!(p("50%"), p("0.5"));
    assert_eq!(triple(p("50%")), (SIGN_POS, 5000000000000000, 0));
}

#[test]
fn truncation_modes() {
    let v = p("2.5");
    assert_eq!(v.to_integer(RoundingMode::Down), p("2"));
    assert_eq!(v.to_integer(RoundingMode::Up), p("3"));
    assert_eq!(v.to_integer(RoundingMode::HalfUp), p("3"));
    assert_eq!(p("2.4").to_integer(RoundingMode::HalfUp), p("2"));
    assert_eq!(v.trunc(), p("2"));
}

#[test]
fn rounding_edge_cases() {
    assert_eq!(p("-2.5").to_integer(RoundingMode::Up), p("-3"));
    assert_eq!(p("9.99").to_integer(RoundingMode::Up), p("10"));
    assert_eq!(p("0.5").to_integer(RoundingMode::HalfUp), p("1"));
    assert_eq!(p("0.4").to_integer(RoundingMode::HalfUp), Value::zero());
    assert_eq!(p("0.4").to_integer(RoundingMode::Down), Value::zero());
    assert_eq!(p("0.4").to_integer(RoundingMode::Up), p("1"));
    assert_eq!(p("7").to_integer(RoundingMode::Up), p("7"));
    assert_eq!(p("1e20").to_integer(RoundingMode::Up), p("1e20"));
    assert_eq!(Value::pos_inf().trunc(), Value::pos_inf());
}

#[test]
fn overflow_collapse() {
    assert_eq!(p("1e200"), Value::pos_inf());
    assert_eq!(p("-1e200"), Value::neg_inf());
    assert_eq!(p("1e-200"), Value::zero());
    assert_eq!(p("-1e-200"), Value::zero());
    assert_eq!(p("1e99999999999999999999999999"), Value::pos_inf());
    assert_eq!(triple(p("1e126")), (SIGN_POS, COEF_MIN, 127));
    assert_eq!(p("1e127"), Value::pos_inf());
}

#[test]
fn sign_ordering() {
    let vals = [p("-1e100"), p("-1"), Value::zero(), p("0.001"), p("1e100")];
    for v in vals.iter() {
        assert!(Value::neg_inf() < *v);
        assert!(*v < Value::pos_inf());
    }
    assert!(Value::neg_inf() < Value::pos_inf());
    assert!(p("-5") < p("-4"));
    assert!(p("-50") < p("-4"));
    assert!(p("4") < p("50"));
    assert!(p("0.5") < p("0.6"));
    assert_eq!(Value::zero().partial_cmp(&Value::zero()), Some(std::cmp::Ordering::Equal));
    assert!(p("1") != Value::zero());
}

#[test]
fn ordering_follows_magnitude() {
    assert!(Value::from(123i32) < Value::from(124i32));
    assert!(Value::from(100u64) < Value::from(999u64));
    assert!(Value::from(-124i64) < Value::from(-123i64));
}

#[test]
fn integer_round_trip() {
    for n in [1i64, 7, 10, 123456789, 9999999999999999, -42, 1000] {
        let v = Value::from(n);
        assert_eq!(p(&n.to_string()), v);
        assert_eq!(v.trunc(), v);
    }
}

#[test]
fn constants_and_digit_counts() {
    assert_eq!(Value::one(), p("1"));
    assert_eq!(Value::neg_one(), p("-1"));
    assert_eq!(COEF_MAX, 9999999999999999);
    let v = p("123.45");
    assert_eq!(v.num_int_digits(), 3);
    assert_eq!(v.num_digits(), 5);
    assert_eq!(v.num_fractional_digits(), 2);
    assert_eq!(p("1200").num_fractional_digits(), -2);
    assert_eq!(Value::zero().num_digits(), 0);
    assert_eq!(get_digits(1200000000000000), vec![b'1', b'2']);
    assert_eq!(get_digits(0), Vec::<u8>::new());
}

#[test]
fn constructors_give_sixteen_digit_coefficients() {
    let vals = [
        Value::from(5i32),
        Value::from(-98765i64),
        Value::from(u64::MAX),
        normalize(SIGN_POS, 3, 0),
        normalize(SIGN_NEG, 123456789012345678, 0),
        Value::new(42, SIGN_POS, 7),
        p("0.000001"),
        p("-123456789.123456789"),
        p("9.99").to_integer(RoundingMode::Up),
        p("2.5").trunc(),
    ];
    for v in vals.iter() {
        assert!(v.coef >= COEF_MIN && v.coef <= COEF_MAX);
    }
}

#[test]
fn round_up_below_one_gives_one() {
    assert_eq!(p("0.05").to_integer(RoundingMode::Up), p("1"));
    assert_eq!(p("-0.0001").to_integer(RoundingMode::Up), p("-1"));
    assert_eq!(p("0.05").to_integer(RoundingMode::HalfUp), Value::zero());
}

#[test]
fn default_is_zero() {
    assert_eq!(Value::default(), Value::zero());
}

#[test]
fn from_str_outcomes() {
    assert_eq!(Value::from_str("50%"), Value::from_str("0.5"));
    assert_eq!(Value::from_str("0.5"), Ok(Value::raw(SIGN_POS, 5000000000000000, 0)));
    assert_eq!(Value::from_str("1e126"), Ok(Value::raw(SIGN_POS, 1000000000000000, 127)));
    assert_eq!(Value::from_str("-1e200"), Ok(Value::neg_inf()));
    assert_eq!(Value::from_str("1e-130"), Ok(Value::zero()));
    assert_eq!(Value::from_str("").unwrap_err().kind, ErrorKind::EmptyInput);
    assert_eq!(Value::from_str("\u{e9}\u{e9}").unwrap_err().kind, ErrorKind::InvalidNumeral);
    assert_eq!(Value::from_str("e5").unwrap_err().kind, ErrorKind::InvalidNumeral);
}

#[test]
fn normalize_keeps_canonical_triples_at_any_exponent() {
    assert_eq!(triple(normalize(SIGN_POS, COEF_MIN, i32::MAX)), (SIGN_POS, COEF_MIN, i32::MAX));
    assert_eq!(triple(Value::new(COEF_MAX, SIGN_NEG, i32::MIN)), (SIGN_NEG, COEF_MAX, i32::MIN));
}

#[test]
fn infinity_literal_takes_no_trailing_text() {
    assert_eq!(Value::parse("infx").unwrap_err().kind(), ErrorKind::InvalidNumeral);
    assert_eq!(Value::parse("-inf123").unwrap_err().kind(), ErrorKind::InvalidNumeral);
    assert_eq!(Value::parse("infinity").unwrap_err().kind(), ErrorKind::InvalidNumeral);
    assert_eq!(p("inf%"), Value::pos_inf());
    assert_eq!(p("-infE5"), Value::neg_inf());
}

#[test]
fn degenerate_input_at_any_exponent() {
    assert_eq!(Value::new(0, SIGN_POS, i32::MIN), Value::zero());
    assert_eq!(normalize(SIGN_POS_INF, 3, i32::MIN), Value::pos_inf());
    assert_eq!(normalize(SIGN_ZERO, u64::MAX, i32::MAX), Value::zero());
}

#[test]
fn all_zero_numerals_give_zero() {
    assert_eq!(p("000.000e300"), Value::zero());
    assert_eq!(p("-0%"), Value::zero());
    assert_eq!(p("-1e-130"), Value::zero());
}
