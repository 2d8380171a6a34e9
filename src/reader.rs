use vstd::prelude::*;
use crate::power::{pow10, pow10_at, lemma_pow10_table, lemma_pow10_add, lemma_pow10_positive, lemma_pow10_mono};
use crate::value::SIGN_POS;
use crate::value::SIGN_NEG;
use vstd::string::StringSliceAdditionalSpecFns;

verus! {

/// Saturation bound of an exponent suffix. Any numeral text is shorter than
/// `usize::MAX`, so a suffix beyond this bound decides the outcome alone.
pub const EXP_CAP: i128 = 100000000000000000000;

pub open spec fn is_digit(b: u8) -> bool {
    48 <= b <= 57
}

/// ASCII lower case of a byte.
pub open spec fn lower(b: u8) -> u8 {
    if 65 <= b <= 90 {
        (b + 32) as u8
    } else {
        b
    }
}

/// Length of the run of digits that starts at `i`.
pub open spec fn digit_run(s: Seq<u8>, i: int) -> nat
    decreases s.len() - i,
{
    if 0 <= i < s.len() && is_digit(s[i]) {
        1 + digit_run(s, i + 1)
    } else {
        0
    }
}

/// The number that a string of ASCII digits spells.
pub open spec fn digits_val(d: Seq<u8>) -> nat
    decreases d.len(),
{
    if d.len() == 0 {
        0
    } else {
        digits_val(d.drop_last()) * 10 + (d.last() - 48) as nat
    }
}

/// Number of leading `'0'` digits.
pub open spec fn lead_zeros(d: Seq<u8>) -> nat
    decreases d.len(),
{
    if d.len() == 0 {
        0
    } else {
        let l = lead_zeros(d.drop_last());
        if l == d.len() - 1 && d.last() == 48 {
            l + 1
        } else {
            l
        }
    }
}

/// The first sixteen digits of `sig`, padded with zeros to sixteen places;
/// later digits are dropped.
pub open spec fn window(sig: Seq<u8>) -> nat {
    let t = if sig.len() <= 16 {
        sig.len()
    } else {
        16
    };
    digits_val(sig.take(t as int)) * pow10((16 - t) as nat)
}

/// The sign that a leading `-` or `+` at `i` gives, and where the rest starts.
pub open spec fn sign_at(s: Seq<u8>, i: int) -> (int, int) {
    if 0 <= i < s.len() && s[i] == 45 {
        (-1, i + 1)
    } else if 0 <= i < s.len() && s[i] == 43 {
        (1, i + 1)
    } else {
        (1, i)
    }
}

/// Whether `pre` stands at `i`, ignoring ASCII case.
pub open spec fn matches_at(s: Seq<u8>, i: int, pre: Seq<u8>) -> bool {
    &&& 0 <= i
    &&& i + pre.len() <= s.len()
    &&& forall|j: int| 0 <= j < pre.len() ==> lower(#[trigger] s[i + j]) == lower(pre[j])
}

/// Where the integer digits of a numeral at `i` end.
pub open spec fn int_end(s: Seq<u8>, i: int) -> int {
    i + digit_run(s, i)
}

/// Whether a decimal point follows the integer digits.
pub open spec fn has_point(s: Seq<u8>, i: int) -> bool {
    0 <= int_end(s, i) < s.len() && s[int_end(s, i)] == 46
}

/// Where the decimal part of a numeral at `i` ends.
pub open spec fn numeral_end(s: Seq<u8>, i: int) -> int {
    if has_point(s, i) {
        int_end(s, i) + 1 + digit_run(s, int_end(s, i) + 1)
    } else {
        int_end(s, i)
    }
}

/// The digits of the numeral at `i`, integer and fractional ones together.
pub open spec fn numeral_digits(s: Seq<u8>, i: int) -> Seq<u8> {
    if has_point(s, i) {
        s.subrange(i, int_end(s, i)) + s.subrange(int_end(s, i) + 1, numeral_end(s, i))
    } else {
        s.subrange(i, int_end(s, i))
    }
}

/// The sixteen-digit coefficient of the numeral at `i`, zero where every
/// digit is zero.
pub open spec fn numeral_coef(s: Seq<u8>, i: int) -> nat {
    let d = numeral_digits(s, i);
    window(d.skip(lead_zeros(d) as int))
}

/// The number of digits before the decimal point of the numeral at `i`,
/// counted from its first significant digit (negative for a fraction with
/// zeros after the point).
pub open spec fn numeral_exp(s: Seq<u8>, i: int) -> int {
    digit_run(s, i) - lead_zeros(numeral_digits(s, i))
}

/// Where the digits of an exponent suffix at `p` would start.
pub open spec fn exp_digits_start(s: Seq<u8>, p: int) -> int {
    sign_at(s, p + 1).1
}

/// Whether an exponent suffix (`e` or `E`, a sign, one digit or more)
/// stands at `p`.
pub open spec fn has_exp(s: Seq<u8>, p: int) -> bool {
    &&& 0 <= p < s.len()
    &&& (s[p] == 101 || s[p] == 69)
    &&& digit_run(s, exp_digits_start(s, p)) > 0
}

/// Where the exponent suffix at `p` ends (`p` where there is none).
pub open spec fn exp_end(s: Seq<u8>, p: int) -> int {
    if has_exp(s, p) {
        exp_digits_start(s, p) + digit_run(s, exp_digits_start(s, p))
    } else {
        p
    }
}

/// The exponent suffix at `p` (zero where there is none).
pub open spec fn exp_value(s: Seq<u8>, p: int) -> int {
    if has_exp(s, p) {
        let q = exp_digits_start(s, p);
        sign_at(s, p + 1).0 * digits_val(s.subrange(q, q + digit_run(s, q)))
    } else {
        0
    }
}

/// `v` held within `[-EXP_CAP, EXP_CAP]`.
pub open spec fn clamp_exp(v: int) -> int {
    if v > EXP_CAP {
        EXP_CAP as int
    } else if v < -EXP_CAP {
        -EXP_CAP
    } else {
        v
    }
}


/// A run of digits from `start` that stops at `i` has length `i - start`.
pub proof fn lemma_digit_run_end(s: Seq<u8>, start: int, i: int)
    requires
        0 <= start <= i <= s.len(),
        forall|k: int| start <= k < i ==> is_digit(#[trigger] s[k]),
        i == s.len() || !is_digit(s[i]),
    ensures
        digit_run(s, start) == i - start,
    decreases i - start,
{
    if start < i {
        lemma_digit_run_end(s, start + 1, i);
    }
}

/// What has been gathered from the digits `d` read so far: the count of
/// leading zeros, how many significant digits were kept (at most sixteen),
/// and the number they spell.
spec fn gathered(d: Seq<u8>, n: u64, taken: usize, zeros: usize) -> bool {
    &&& zeros == lead_zeros(d)
    &&& zeros <= d.len()
    &&& taken == (if d.len() - zeros <= 16 {
        d.len() - zeros
    } else {
        16
    })
    &&& n == digits_val(d.skip(zeros as int).take(taken as int))
    &&& n < pow10(taken as nat)
}

/// Takes one more digit `b` after the digits `d`.
fn push_digit(n: u64, taken: usize, zeros: usize, count: usize, b: u8, Ghost(d): Ghost<Seq<u8>>) -> (r: (u64, usize, usize))
    requires
        gathered(d, n, taken, zeros),
        count == d.len(),
        count < usize::MAX,
        is_digit(b),
    ensures
        gathered(d.push(b), r.0, r.1, r.2),
{
    let ghost dp = d.push(b);
    assert(dp.drop_last() =~= d);
    if zeros == count && b == 48 {
        assert(dp.skip(zeros as int + 1).take(0) =~= Seq::<u8>::empty());
        assert(d.skip(zeros as int).take(0) =~= Seq::<u8>::empty());
        return (n, taken, zeros + 1);
    }
    let ghost sig = d.skip(zeros as int);
    assert(dp.skip(zeros as int) =~= sig.push(b));
    if taken < 16 {
        assert(sig.take(taken as int) =~= sig);
        let ghost x = sig.push(b);
        assert(x.take(taken as int + 1) =~= x);
        assert(x.drop_last() =~= sig);
        assert(pow10(taken as nat + 1) == 10 * pow10(taken as nat));
        proof {
            lemma_pow10_mono(taken as nat, 15);
            lemma_pow10_table();
        }
        let v = n * 10 + (b - 48) as u64;
        (v, taken + 1, zeros)
    } else {
        assert(sig.push(b).take(16) =~= sig.take(16));
        (n, taken, zeros)
    }
}

/// A cursor over the bytes of a numeral.
pub struct Reader<'a> {
    s: &'a [u8],
    i: usize,
}

impl<'a> Reader<'a> {
    /// The bytes read.
    pub closed spec fn text(&self) -> Seq<u8> {
        self.s@
    }

    /// The cursor.
    pub closed spec fn pos(&self) -> int {
        self.i as int
    }

    pub open spec fn wf(&self) -> bool {
        0 <= self.pos() <= self.text().len()
    }

    /// A reader over the bytes of `s`, its cursor at `i`.
    pub fn new(s: &'a str, i: usize) -> (r: Reader<'a>)
        requires
            i <= s.spec_bytes().len(),
        ensures
            r.text() == s.spec_bytes(),
            r.pos() == i,
            r.wf(),
    {
        Reader { s: s.as_bytes(), i }
    }

    /// A reader over `s`, its cursor at `i`.
    pub fn from_bytes(s: &'a [u8], i: usize) -> (r: Reader<'a>)
        requires
            i <= s@.len(),
        ensures
            r.text() == s@,
            r.pos() == i,
            r.wf(),
    {
        Reader { s, i }
    }

    /// The byte at the cursor, or 0 at the end.
    pub fn cur(&self) -> (r: u8)
        requires
            self.wf(),
        ensures
            r == (if self.pos() < self.text().len() {
                self.text()[self.pos()]
            } else {
                0u8
            }),
    {
        if self.i >= self.s.len() {
            return 0;
        }
        self.s[self.i]
    }

    /// The byte before the cursor, or 0 at the start.
    pub fn prev(&self) -> (r: u8)
        requires
            self.wf(),
        ensures
            r == (if self.pos() > 0 {
                self.text()[self.pos() - 1]
            } else {
                0u8
            }),
    {
        if self.i == 0 {
            return 0;
        }
        self.s[self.i - 1]
    }

    /// How many bytes are left.
    pub fn len(&self) -> (r: usize)
        requires
            self.wf(),
        ensures
            r == self.text().len() - self.pos(),
    {
        self.s.len() - self.i
    }

    /// Steps over `c` if it is at the cursor.
    pub fn match_c(&mut self, c: u8) -> (r: bool)
        requires
            old(self).wf(),
        ensures
            final(self).wf(),
            final(self).text() == old(self).text(),
            r == (old(self).pos() < old(self).text().len() && old(self).text()[old(self).pos()]
                == c),
            final(self).pos() == old(self).pos() + if r {
                1int
            } else {
                0int
            },
    {
        if self.i < self.s.len() && self.s[self.i] == c {
            self.i = self.i + 1;
            return true;
        }
        false
    }

    /// Steps over a digit if one is at the cursor.
    pub fn match_digit(&mut self) -> (r: bool)
        requires
            old(self).wf(),
        ensures
            final(self).wf(),
            final(self).text() == old(self).text(),
            r == (old(self).pos() < old(self).text().len() && is_digit(
                old(self).text()[old(self).pos()],
            )),
            final(self).pos() == old(self).pos() + if r {
                1int
            } else {
                0int
            },
    {
        if self.i < self.s.len() && 48 <= self.s[self.i] && self.s[self.i] <= 57 {
            self.i = self.i + 1;
            return true;
        }
        false
    }

    /// Steps over `pre` if it stands at the cursor, ignoring ASCII case.
    pub fn match_str_ignore_case(&mut self, pre: &[u8]) -> (r: bool)
        requires
            old(self).wf(),
        ensures
            final(self).wf(),
            final(self).text() == old(self).text(),
            r == matches_at(old(self).text(), old(self).pos(), pre@),
            final(self).pos() == old(self).pos() + if r {
                pre@.len() as int
            } else {
                0int
            },
    {
        if pre.len() > self.s.len() - self.i {
            return false;
        }
        let s = self.s;
        let i = self.i;
        let n = pre.len();
        let slen = s.len();
        let mut j: usize = 0;
        while j < n
            invariant
                n == pre@.len(),
                slen == s@.len(),
                j <= n,
                i + pre@.len() <= s@.len(),
                s@ == self.text(),
                i == self.pos(),
                forall|k: int| 0 <= k < j ==> lower(#[trigger] s@[i + k]) == lower(pre@[k]),
            decreases pre@.len() - j,
        {
            let a = s[i + j];
            let b = pre[j];
            let la = if 65 <= a && a <= 90 {
                a + 32
            } else {
                a
            };
            let lb = if 65 <= b && b <= 90 {
                b + 32
            } else {
                b
            };
            if la != lb {
                return false;
            }
            j = j + 1;
        }
        self.i = self.i + pre.len();
        true
    }

    /// Reads an optional `-` or `+`: the sign, positive where none stands.
    pub fn get_sign(&mut self) -> (r: i8)
        requires
            old(self).wf(),
        ensures
            final(self).wf(),
            final(self).text() == old(self).text(),
            r as int == sign_at(old(self).text(), old(self).pos()).0,
            final(self).pos() == sign_at(old(self).text(), old(self).pos()).1,
    {
        if self.match_c(45) {
            return SIGN_NEG;
        }
        self.match_c(43);
        SIGN_POS
    }

    /// Reads the digits of a numeral (integer digits, then an optional
    /// decimal point and fractional digits): `None` where there is no digit,
    /// else the sixteen-digit coefficient and the exponent of the numeral.
    pub fn get_coef(&mut self) -> (r: Option<(u64, i128)>)
        requires
            old(self).wf(),
        ensures
            final(self).wf(),
            final(self).text() == old(self).text(),
            final(self).pos() == numeral_end(old(self).text(), old(self).pos()),
            r.is_none() <==> numeral_digits(old(self).text(), old(self).pos()).len() == 0,
            r matches Some(
                v,
            ) ==> v.0 == numeral_coef(old(self).text(), old(self).pos()) && v.1 == numeral_exp(
                old(self).text(),
                old(self).pos(),
            ) && -(usize::MAX as int) <= v.1 <= usize::MAX,
    {
        let s = self.s;
        let slen = s.len();
        let start = self.i;
        let mut i = self.i;
        let mut n: u64 = 0;
        let mut taken: usize = 0;
        let mut zeros: usize = 0;
        let mut count: usize = 0;
        let ghost mut d: Seq<u8> = Seq::empty();
        assert(d.skip(0).take(0) =~= Seq::<u8>::empty());
        proof {
            lemma_pow10_table();
        }
        while i < slen && 48 <= s[i] && s[i] <= 57
            invariant
                slen == s@.len(),
                start <= i <= slen,
                forall|k: int| start <= k < i ==> is_digit(#[trigger] s@[k]),
                d == s@.subrange(start as int, i as int),
                count == d.len(),
                count == i - start,
                gathered(d, n, taken, zeros),
            decreases slen - i,
        {
            let b = s[i];
            let r = push_digit(n, taken, zeros, count, b, Ghost(d));
            n = r.0;
            taken = r.1;
            zeros = r.2;
            proof {
                assert(s@.subrange(start as int, i + 1) =~= d.push(b));
                d = d.push(b);
            }
            count = count + 1;
            i = i + 1;
        }
        proof {
            lemma_digit_run_end(s@, start as int, i as int);
        }
        let int_digits = count;
        let iend = i;
        let ghost dint = d;
        if i < slen && s[i] == 46 {
            i = i + 1;
            let fstart = i;
            while i < slen && 48 <= s[i] && s[i] <= 57
                invariant
                    slen == s@.len(),
                    fstart <= i <= slen,
                    forall|k: int| fstart <= k < i ==> is_digit(#[trigger] s@[k]),
                    d == dint + s@.subrange(fstart as int, i as int),
                    count == d.len(),
                    fstart == iend + 1,
                    int_digits == iend - start,
                    count == i - start - 1,
                    gathered(d, n, taken, zeros),
                decreases slen - i,
            {
                let b = s[i];
                let r = push_digit(n, taken, zeros, count, b, Ghost(d));
                n = r.0;
                taken = r.1;
                zeros = r.2;
                proof {
                    assert(dint + s@.subrange(fstart as int, i + 1) =~= d.push(b));
                    d = d.push(b);
                }
                count = count + 1;
                i = i + 1;
            }
            proof {
                lemma_digit_run_end(s@, fstart as int, i as int);
            }
        }
        self.i = i;
        assert(d =~= numeral_digits(s@, start as int));
        if count == 0 {
            return None;
        }
        let m = pow10_at(16 - taken);
        proof {
            lemma_pow10_add(taken as nat, (16 - taken) as nat);
            let a = pow10(taken as nat);
            let c = pow10((16 - taken) as nat);
            assert(n * c < a * c) by (nonlinear_arith)
                requires
                    n < a,
                    c > 0,
            ;
            lemma_pow10_positive((16 - taken) as nat);
        }
        let coef = n * m;
        let exp = int_digits as i128 - zeros as i128;
        Some((coef, exp))
    }

    /// Reads an exponent suffix: `e` or `E`, an optional sign and at least
    /// one digit. Where none stands, nothing is read and the result is zero.
    /// The result is held within `[-EXP_CAP, EXP_CAP]`.
    pub fn get_exp(&mut self) -> (r: i128)
        requires
            old(self).wf(),
        ensures
            final(self).wf(),
            final(self).text() == old(self).text(),
            final(self).pos() == exp_end(old(self).text(), old(self).pos()),
            r == clamp_exp(exp_value(old(self).text(), old(self).pos())),
    {
        let s = self.s;
        let slen = s.len();
        let p = self.i;
        if !(p < slen && (s[p] == 101 || s[p] == 69)) {
            return 0;
        }
        let mut q = p + 1;
        let mut neg = false;
        if q < slen && s[q] == 45 {
            neg = true;
            q = q + 1;
        } else if q < slen && s[q] == 43 {
            q = q + 1;
        }
        let q0 = q;
        let mut e: i128 = 0;
        assert(s@.subrange(q0 as int, q0 as int) =~= Seq::<u8>::empty());
        while q < slen && 48 <= s[q] && s[q] <= 57
            invariant
                slen == s@.len(),
                q0 <= q <= slen,
                forall|k: int| q0 <= k < q ==> is_digit(#[trigger] s@[k]),
                e == (if digits_val(s@.subrange(q0 as int, q as int)) > EXP_CAP {
                    EXP_CAP as int
                } else {
                    digits_val(s@.subrange(q0 as int, q as int)) as int
                }),
            decreases slen - q,
        {
            let b = s[q];
            proof {
                let x = s@.subrange(q0 as int, q as int);
                assert(s@.subrange(q0 as int, q + 1).drop_last() =~= x);
            }
            let v = e * 10 + (b - 48) as i128;
            e = if v > EXP_CAP {
                EXP_CAP
            } else {
                v
            };
            q = q + 1;
        }
        proof {
            lemma_digit_run_end(s@, q0 as int, q as int);
        }
        if q == q0 {
            return 0;
        }
        self.i = q;
        proof {
            let t = s@;
            assert(sign_at(t, p + 1).1 == q0);
            assert(exp_digits_start(t, p as int) == q0);
            assert(has_exp(t, p as int));
            let v = digits_val(t.subrange(q0 as int, q as int));
            if neg {
                assert(sign_at(t, p + 1).0 == -1);
                assert(exp_value(t, p as int) == -v);
            } else {
                assert(sign_at(t, p + 1).0 == 1);
                assert(exp_value(t, p as int) == v);
            }
        }
        if neg {
            -e
        } else {
            e
        }
    }
}

} // verus!
