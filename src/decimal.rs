//! Arbitrary-precision decimals, held as their plain decimal text.
//!
//! The arithmetic is bigdecimal's; the library holds each value as the text
//! that `BigDecimal::to_plain_string` gives for it, and the contracts speak of
//! that text and of the value it writes.
use vstd::prelude::*;
use std::str::FromStr;
use bigdecimal::BigDecimal;
use crate::text::{digits_value, is_digit};

verus! {

/// The default number of fractional digits of a session.
pub const MAX_DECIMAL_PLACES: usize = 450;

/// A session's configuration: how many fractional digits the arithmetic-only
/// primitives resolve.
pub struct Config {
    pub decimal_places: usize,
}

impl Config {
    pub fn new(decimal_places: usize) -> (r: Config)
        ensures
            r.decimal_places == decimal_places,
    {
        Config { decimal_places }
    }
}

/// Digits with at most one `.` between them: `12`, `0.50`.
pub open spec fn is_unsigned_plain(s: Seq<char>) -> bool {
    &&& s.len() > 0
    &&& is_digit(s[0])
    &&& is_digit(s.last())
    &&& forall|i: int| 0 <= i < s.len() ==> is_digit(#[trigger] s[i]) || s[i] == '.'
    &&& forall|i: int, j: int| 0 <= i < j < s.len() && #[trigger] s[i] == '.' ==> #[trigger] s[j] != '.'
}

/// Plain decimal notation, optionally negative: `-0.25`, `7`.
pub open spec fn is_plain(s: Seq<char>) -> bool {
    if s.len() > 0 && s[0] == '-' {
        is_unsigned_plain(s.drop_first())
    } else {
        is_unsigned_plain(s)
    }
}

/// The plain text that bigdecimal writes for the value it reads from it: no
/// leading zero before the point other than a lone `0`, and no `-` on zero.
pub open spec fn is_canonical(s: Seq<char>) -> bool {
    let u = if s.len() > 0 && s[0] == '-' {
        s.drop_first()
    } else {
        s
    };
    &&& is_plain(s)
    &&& (u[0] == '0' ==> u.len() == 1 || u[1] == '.')
    &&& (s.len() > 0 && s[0] == '-' ==> mantissa(s) != 0)
}

/// The digits of `s`, read as one number, skipping any `.`.
pub open spec fn magnitude(s: Seq<char>) -> nat
    decreases s.len(),
{
    if s.len() == 0 {
        0
    } else if s.last() == '.' {
        magnitude(s.drop_last())
    } else {
        magnitude(s.drop_last()) * 10 + ((s.last() as int - '0' as int) as nat)
    }
}

/// How many digits follow the `.` of `s` (0 where there is none).
pub open spec fn fraction_len(s: Seq<char>) -> nat
    decreases s.len(),
{
    if s.len() == 0 || s.last() == '.' {
        0
    } else if s.drop_last().contains('.') {
        fraction_len(s.drop_last()) + 1
    } else {
        0
    }
}

/// The integer `m` such that the plain text `s` writes `m / 10^scale`.
pub open spec fn mantissa(s: Seq<char>) -> int {
    if s.len() > 0 && s[0] == '-' {
        -magnitude(s.drop_first())
    } else {
        magnitude(s) as int
    }
}

pub open spec fn scale(s: Seq<char>) -> nat {
    fraction_len(s)
}

pub open spec fn pow10(n: nat) -> int
    decreases n,
{
    if n == 0 {
        1
    } else {
        10 * pow10((n - 1) as nat)
    }
}

/// The value of `a` is less than the value of `b`.
pub open spec fn value_lt(a: Seq<char>, b: Seq<char>) -> bool {
    mantissa(a) * pow10(scale(b)) < mantissa(b) * pow10(scale(a))
}

/// The value of `s` brought to `t` fractional digits (`t` at least its scale).
pub open spec fn at_scale(s: Seq<char>, t: nat) -> int {
    mantissa(s) * pow10((t - scale(s)) as nat)
}

/// The value of `r` is the sum of the values of `a` and `b`.
pub open spec fn is_sum(r: Seq<char>, a: Seq<char>, b: Seq<char>) -> bool {
    let t = scale(r) + scale(a) + scale(b);
    at_scale(r, t) == at_scale(a, t) + at_scale(b, t)
}

/// The value of `r` is the product of the values of `a` and `b`.
pub open spec fn is_product(r: Seq<char>, a: Seq<char>, b: Seq<char>) -> bool {
    mantissa(r) * pow10(scale(a) + scale(b)) == mantissa(a) * mantissa(b) * pow10(scale(r))
}

pub proof fn lemma_pow10_pos(n: nat)
    ensures
        pow10(n) > 0,
    decreases n,
{
    if n > 0 {
        lemma_pow10_pos((n - 1) as nat);
    }
}

/// Of two numbers, at most one is less than the other.
pub proof fn lemma_value_lt_asym(a: Seq<char>, b: Seq<char>)
    ensures
        !(value_lt(a, b) && value_lt(b, a)),
{
}

/// Being less in value is transitive.
pub proof fn lemma_value_lt_trans(a: Seq<char>, b: Seq<char>, c: Seq<char>)
    requires
        value_lt(a, b),
        value_lt(b, c),
    ensures
        value_lt(a, c),
{
    let (ma, mb, mc) = (mantissa(a), mantissa(b), mantissa(c));
    let (pa, pb, pc) = (pow10(scale(a)), pow10(scale(b)), pow10(scale(c)));
    lemma_pow10_pos(scale(a));
    lemma_pow10_pos(scale(b));
    lemma_pow10_pos(scale(c));
    assert(ma * pb * pc < mb * pa * pc) by (nonlinear_arith)
        requires
            ma * pb < mb * pa,
            pc > 0,
    ;
    assert(mb * pc * pa < mc * pb * pa) by (nonlinear_arith)
        requires
            mb * pc < mc * pb,
            pa > 0,
    ;
    assert(ma * pc < mc * pa) by (nonlinear_arith)
        requires
            ma * pb * pc < mb * pa * pc,
            mb * pc * pa < mc * pb * pa,
            pb > 0,
    ;
}

/// The plain text of what `BigDecimal::from_str` reads from `s`, if it reads it.
pub uninterp spec fn parsed_of(s: Seq<char>) -> Option<Seq<char>>;

/// The plain text of the sum that bigdecimal computes.
pub uninterp spec fn sum_of(a: Seq<char>, b: Seq<char>) -> Seq<char>;

/// The plain text of the difference that bigdecimal computes.
pub uninterp spec fn difference_of(a: Seq<char>, b: Seq<char>) -> Seq<char>;

/// The plain text of the product that bigdecimal computes.
pub uninterp spec fn product_of(a: Seq<char>, b: Seq<char>) -> Seq<char>;

/// The plain text of the quotient that bigdecimal computes at its default precision.
pub uninterp spec fn quotient_of(a: Seq<char>, b: Seq<char>) -> Seq<char>;

/// The plain text of `a` to the integer power `n`, as bigdecimal computes it.
pub uninterp spec fn power_of(a: Seq<char>, n: int) -> Seq<char>;

/// The plain text of the square root that bigdecimal computes.
pub uninterp spec fn root_of(a: Seq<char>) -> Seq<char>;

/// An arbitrary-precision decimal number.
#[derive(Debug)]
pub struct Dec {
    text: String,
}

impl View for Dec {
    type V = Seq<char>;

    /// The plain decimal text of the number.
    closed spec fn view(&self) -> Seq<char> {
        self.text@
    }
}

impl Dec {
    #[verifier::type_invariant]
    closed spec fn inv(&self) -> bool {
        is_plain(self.text@)
    }

    /// The number written by a plain decimal text.
    pub fn from_chars(v: &Vec<char>) -> (r: Dec)
        requires
            is_plain(v@),
        ensures
            r@ == v@,
    {
        Dec { text: crate::text::string_of_chars(v) }
    }

    /// The characters of the plain text.
    pub fn chars(&self) -> (r: Vec<char>)
        ensures
            r@ == self@,
            is_plain(self@),
    {
        proof {
            use_type_invariant(self);
        }
        crate::text::chars_of(self.text.as_str())
    }

    /// The plain decimal text, with as many fractional digits as the number holds.
    pub fn to_plain_string(&self) -> (r: String)
        ensures
            r@ == self@,
    {
        self.text.clone()
    }

    /// Reads a decimal number as bigdecimal reads it.
    pub fn parse(s: &str) -> (r: Option<Dec>)
        ensures
            match r {
                Some(d) => parsed_of(s@) == Some(d@),
                None => parsed_of(s@) is None,
            },
            is_plain(s@) ==> r is Some && mantissa(r->0@) == mantissa(s@) && scale(r->0@) == scale(
                s@,
            ),
            is_canonical(s@) ==> r is Some && r->0@ == s@,
    {
        parse_dec(s)
    }

}

impl Clone for Dec {
    fn clone(&self) -> (r: Dec)
        ensures
            r@ == self@,
    {
        proof {
            use_type_invariant(self);
        }
        Dec { text: self.text.clone() }
    }
}

/// Relies on `BigDecimal::from_str` and `BigDecimal::to_plain_string`: a plain
/// decimal text is read as the integer of its digits over a power of ten, and
/// written back with the same digits and fractional length; a canonical one
/// comes back unchanged.
#[verifier::external_body]
fn parse_dec(s: &str) -> (r: Option<Dec>)
    ensures
        match r {
            Some(d) => parsed_of(s@) == Some(d@) && is_plain(d@),
            None => parsed_of(s@) is None,
        },
        is_plain(s@) ==> r is Some && mantissa(r->0@) == mantissa(s@) && scale(r->0@) == scale(s@),
        is_canonical(s@) ==> r is Some && r->0@ == s@,
{
    match BigDecimal::from_str(s) {
        Ok(v) => Some(Dec { text: v.to_plain_string() }),
        Err(_) => None,
    }
}

/// Relies on `BigDecimal`'s `Add`, which is exact.
#[verifier::external_body]
pub(crate) fn dec_add(a: &Dec, b: &Dec) -> (r: Dec)
    ensures
        r@ == sum_of(a@, b@),
        is_sum(r@, a@, b@),
{
    let x = BigDecimal::from_str(&a.text).unwrap();
    let y = BigDecimal::from_str(&b.text).unwrap();
    Dec { text: (x + y).to_plain_string() }
}

/// Relies on `BigDecimal`'s `Sub`, which is exact.
#[verifier::external_body]
pub(crate) fn dec_sub(a: &Dec, b: &Dec) -> (r: Dec)
    ensures
        r@ == difference_of(a@, b@),
        is_sum(a@, r@, b@),
{
    let x = BigDecimal::from_str(&a.text).unwrap();
    let y = BigDecimal::from_str(&b.text).unwrap();
    Dec { text: (x - y).to_plain_string() }
}

/// Relies on `BigDecimal`'s `Mul`, which is exact.
#[verifier::external_body]
pub(crate) fn dec_mul(a: &Dec, b: &Dec) -> (r: Dec)
    ensures
        r@ == product_of(a@, b@),
        is_product(r@, a@, b@),
{
    let x = BigDecimal::from_str(&a.text).unwrap();
    let y = BigDecimal::from_str(&b.text).unwrap();
    Dec { text: (x * y).to_plain_string() }
}

/// Relies on `BigDecimal`'s `Div`, which panics on a zero divisor and
/// otherwise rounds to the default precision.
#[verifier::external_body]
pub(crate) fn dec_div(a: &Dec, b: &Dec) -> (r: Dec)
    requires
        mantissa(b@) != 0,
    ensures
        r@ == quotient_of(a@, b@),
{
    let x = BigDecimal::from_str(&a.text).unwrap();
    let y = BigDecimal::from_str(&b.text).unwrap();
    Dec { text: (x / y).to_plain_string() }
}

/// The largest exponent, in absolute value, that a power is taken with.
pub const MAX_EXPONENT: i64 = 1_000_000_000;

/// The longest base text that a power is taken of.
pub const MAX_POWER_BASE_LEN: usize = 100_000_000;

/// Relies on `BigDecimal::powi`. It multiplies the scale of the base (or of
/// its inverse, for a negative exponent) by the exponent without an overflow
/// check, so both are bounded. A zero exponent gives one for a nonzero base.
#[verifier::external_body]
pub(crate) fn dec_powi(a: &Dec, n: i64) -> (r: Dec)
    requires
        -MAX_EXPONENT <= n <= MAX_EXPONENT,
        a@.len() <= MAX_POWER_BASE_LEN,
    ensures
        r@ == power_of(a@, n as int),
        n == 0 && mantissa(a@) != 0 ==> mantissa(r@) == pow10(scale(r@)),
{
    let x = BigDecimal::from_str(&a.text).unwrap();
    Dec { text: x.powi(n).to_plain_string() }
}

/// Relies on `BigDecimal::sqrt`, which has no result for a negative number.
#[verifier::external_body]
pub(crate) fn dec_sqrt(a: &Dec) -> (r: Option<Dec>)
    ensures
        r is None <==> mantissa(a@) < 0,
        r is Some ==> r->0@ == root_of(a@),
{
    let x = BigDecimal::from_str(&a.text).unwrap();
    x.sqrt().map(|v| Dec { text: v.to_plain_string() })
}

/// Relies on `BigDecimal`'s `PartialOrd`, which orders by value.
#[verifier::external_body]
pub(crate) fn dec_lt(a: &Dec, b: &Dec) -> (r: bool)
    ensures
        r == value_lt(a@, b@),
{
    let x = BigDecimal::from_str(&a.text).unwrap();
    let y = BigDecimal::from_str(&b.text).unwrap();
    x < y
}

/// The plain decimal text of `x`.
pub fn dec_to_string(x: &Dec) -> (r: String)
    ensures
        r@ == x@,
{
    x.to_plain_string()
}

/// The number zero.
pub fn zero() -> (r: Dec)
    ensures
        r@ == seq!['0'],
{
    let mut v: Vec<char> = Vec::new();
    v.push('0');
    assert(v@ == seq!['0']);
    Dec::from_chars(&v)
}

/// Whether the value of `d` is zero.
pub fn is_zero(d: &Dec) -> (r: bool)
    ensures
        r == (mantissa(d@) == 0),
{
    let z = zero();
    proof {
        reveal_with_fuel(magnitude, 2);
        assert(mantissa(seq!['0']) == 0);
        assert(scale(seq!['0']) == 0) by {
            reveal_with_fuel(fraction_len, 2);
        }
    }
    !dec_lt(d, &z) && !dec_lt(&z, d)
}

/// Whether the value of `d` is below zero.
pub fn is_negative(d: &Dec) -> (r: bool)
    ensures
        r == (mantissa(d@) < 0),
{
    let z = zero();
    proof {
        reveal_with_fuel(magnitude, 2);
        assert(mantissa(seq!['0']) == 0);
        assert(scale(seq!['0']) == 0) by {
            reveal_with_fuel(fraction_len, 2);
        }
        assert(pow10(0) == 1);
    }
    dec_lt(d, &z)
}

} // verus!
