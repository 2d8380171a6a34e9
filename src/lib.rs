//! An exact base-10 number with a 16-digit significand, a power-of-ten
//! exponent and a sign that also encodes zero and the two infinities.

mod power;
mod value;
mod reader;
mod parse;
mod laws;

pub use power::{
    pow10, half_pow10, pow10_at, half_pow10_at, ndigits, log10_floor, shift_of, digit_at,
    is_digit_string, ilog10, max_shift, get_digits,
};
pub use value::{
    Value, RoundingMode, inf, normalize, inf_of, rounded, normalized, of_triple, from_int, compare, integer_of, sig_digits,
    SIGN_POS_INF, SIGN_POS, SIGN_ZERO, SIGN_NEG, SIGN_NEG_INF, COEF_MIN, COEF_MAX, DIGITSMAX,
    SHIFTMAX,
};
pub use reader::{
    Reader, EXP_CAP, is_digit, lower, digit_run, digits_val, lead_zeros, window, sign_at,
    matches_at, int_end, has_point, numeral_end, numeral_digits, numeral_coef, numeral_exp,
    exp_digits_start, has_exp, exp_end, exp_value, clamp_exp,
};
pub use parse::{ErrorKind, ParseFloatError, parse_spec, outcome, numeral_part};
pub use laws::{
    lemma_normalized_canonical, lemma_sign_order, lemma_normalize_idempotent,
    lemma_order_of_integers, lemma_exponent_collapse, lemma_numeral_coef_zero, lemma_integer_round_trip, digits_of,
    lemma_compare_by_magnitude, scaled, lemma_integer_rounds, int_magnitude, is_integral,
    decimal_text,
};
