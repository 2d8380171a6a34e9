use vstd::prelude::*;
use crate::value::{Value, normalize, inf_of, normalized};
use crate::reader::{
    Reader, EXP_CAP, sign_at, matches_at, numeral_digits, numeral_end, numeral_coef,
    numeral_exp, exp_end, exp_value, clamp_exp,
};
use vstd::string::StringSliceAdditionalSpecFns;

verus! {

/// Why a numeral was refused.
#[derive(Clone, Copy, Debug, PartialEq, Eq, Structural)]
pub enum ErrorKind {
    /// The text is empty.
    EmptyInput,
    /// The text has no digit, or holds something after the numeral.
    InvalidNumeral,
    /// A floating-point NaN has no decimal value.
    NotANumber,
}

/// A refused numeral, or a refused conversion.
#[derive(Clone, Copy, Debug, PartialEq, Eq, Structural)]
pub struct ParseFloatError {
    pub kind: ErrorKind,
}

impl ParseFloatError {
    pub fn kind(&self) -> (r: ErrorKind)
        ensures
            r == self.kind,
    {
        self.kind
    }
}

/// The bytes of a numeral without its trailing `%`, if any.
pub open spec fn numeral_part(b: Seq<u8>) -> Seq<u8> {
    if b.len() > 0 && b.last() == 37 {
        b.drop_last()
    } else {
        b
    }
}

/// What parsing the bytes `b` gives: the triple of the value, or the error.
///
/// A trailing `%` is taken off and divides by one hundred. A leading `-` or
/// `+` gives the sign. `inf`, in any case, followed by nothing but an
/// optional exponent suffix, gives the infinity of that sign. Otherwise the
/// rest must be a numeral with at least one digit and an optional exponent
/// suffix, and nothing after.
/// Only the first sixteen significant digits count. An exponent below
/// -128, or a numeral of zeros, gives zero; one above 127 gives the
/// infinity of the sign; both are judged before the percent scaling.
pub open spec fn parse_spec(b: Seq<u8>) -> Result<(int, nat, int), ErrorKind> {
    if b.len() == 0 {
        Err(ErrorKind::EmptyInput)
    } else {
        let pct = b.last() == 37;
        let t = numeral_part(b);
        let sign = sign_at(t, 0).0;
        let i0 = sign_at(t, 0).1;
        if matches_at(t, i0, seq![105u8, 110u8, 102u8]) {
            if exp_end(t, i0 + 3) == t.len() {
                Ok(inf_of(2 * sign))
            } else {
                Err(ErrorKind::InvalidNumeral)
            }
        } else if numeral_digits(t, i0).len() == 0 {
            Err(ErrorKind::InvalidNumeral)
        } else if exp_end(t, numeral_end(t, i0)) != t.len() {
            Err(ErrorKind::InvalidNumeral)
        } else {
            let c = numeral_coef(t, i0);
            let e = numeral_exp(t, i0) + exp_value(t, numeral_end(t, i0));
            if c == 0 || e < -128 {
                Ok((0int, 0nat, 0int))
            } else if e > 127 {
                Ok(inf_of(2 * sign))
            } else {
                Ok(
                    normalized(
                        sign,
                        c,
                        if pct {
                            e - 2
                        } else {
                            e
                        },
                    ),
                )
            }
        }
    }
}

/// A parse result seen as a triple or an error kind.
pub open spec fn outcome(r: Result<Value, ParseFloatError>) -> Result<(int, nat, int), ErrorKind> {
    match r {
        Ok(v) => Ok(v.triple()),
        Err(e) => Err(e.kind),
    }
}

impl Value {
    /// Parses a numeral given as bytes.
    pub fn parse_bytes(b: &[u8]) -> (r: Result<Value, ParseFloatError>)
        ensures
            outcome(r) == parse_spec(b@),
            r matches Ok(v) ==> v.wf(),
    {
        let blen = b.len();
        if blen == 0 {
            return Err(ParseFloatError { kind: ErrorKind::EmptyInput });
        }
        let pct = b[blen - 1] == 37;
        let t = if pct {
            vstd::slice::slice_subrange(b, 0, blen - 1)
        } else {
            b
        };
        assert(t@ =~= numeral_part(b@));
        let mut r = Reader::from_bytes(t, 0);
        let sign = r.get_sign();
        let ghost i0 = r.pos();
        let pat: [u8; 3] = [105, 110, 102];
        let ps = pat.as_slice();
        proof {
            broadcast use vstd::array::axiom_spec_array_as_slice;
            assert(ps@ =~= seq![105u8, 110u8, 102u8]);
        }
        if r.match_str_ignore_case(ps) {
            r.get_exp();
            if r.len() != 0 {
                return Err(ParseFloatError { kind: ErrorKind::InvalidNumeral });
            }
            return Ok(Value::inf(2 * sign));
        }
        let got = r.get_coef();
        let (c, ne) = match got {
            Some(v) => v,
            None => {
                return Err(ParseFloatError { kind: ErrorKind::InvalidNumeral });
            },
        };
        let ghost p = r.pos();
        let es = r.get_exp();
        if r.len() != 0 {
            return Err(ParseFloatError { kind: ErrorKind::InvalidNumeral });
        }
        let total = ne + es;
        proof {
            let e = ne + exp_value(t@, p);
            assert(usize::MAX < EXP_CAP - 200);
            assert(es == clamp_exp(exp_value(t@, p)));
            assert(total < -128 <==> e < -128);
            assert(total > 127 <==> e > 127);
            assert(-128 <= total <= 127 ==> total == e);
        }
        if c == 0 || total < -128 {
            return Ok(Value::zero());
        }
        if total > 127 {
            return Ok(Value::inf(2 * sign));
        }
        let exp: i32 = if pct {
            total as i32 - 2
        } else {
            total as i32
        };
        Ok(normalize(sign, c, exp))
    }

    /// Parses a numeral (see `parse_spec`).
    pub fn parse(s: &str) -> (r: Result<Value, ParseFloatError>)
        ensures
            outcome(r) == parse_spec(s.spec_bytes()),
            r matches Ok(v) ==> v.wf(),
    {
        Value::parse_bytes(s.as_bytes())
    }
}

impl core::str::FromStr for Value {
    type Err = ParseFloatError;

    fn from_str(s: &str) -> (r: Result<Value, ParseFloatError>)
        ensures
            outcome(r) == parse_spec(s.spec_bytes()),
            r matches Ok(v) ==> v.wf(),
    {
        Value::parse(s)
    }
}

} // verus!
