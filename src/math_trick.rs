//! Primitives that decide by comparing with a fixed boundary just below zero.
//!
//! The boundary of a session with `d` fractional digits is `-10^-(d+1)`,
//! written `-0.` followed by `d` zeros and a `1`. Comparing against it and
//! against its shifts by whole numbers classifies a number as below, above,
//! or too close to tell; the last case answers `NaN`.
use vstd::prelude::*;
use crate::decimal::{
    at_scale, is_sum, dec_lt, dec_mul, fraction_len, is_plain, is_unsigned_plain, lemma_pow10_pos, lemma_value_lt_asym,
    lemma_value_lt_trans, magnitude, mantissa, pow10, product_of, scale, value_lt, Config, Dec,
};
use crate::parser::make_string;
use crate::text::{
    contains_char, is_digit, string_of_chars, trim_end, trim_end_chars, trim_zeros_chars,
    trim_zeros_spec,
};

verus! {

pub open spec fn digit_char(k: nat) -> char {
    (('0' as nat) + k) as char
}

pub open spec fn repeat_char(c: char, n: nat) -> Seq<char> {
    Seq::new(n, |i: int| c)
}

/// The boundary shifted up by `k`: `k - 10^-(d+1)` in plain text.
pub open spec fn boundary(k: nat, d: nat) -> Seq<char> {
    if k == 0 {
        seq!['-', '0', '.'] + repeat_char('0', d) + seq!['1']
    } else {
        seq![digit_char((k - 1) as nat), '.', '9'] + repeat_char('9', d)
    }
}

pub open spec fn nan_text() -> Seq<char> {
    seq!['N', 'a', 'N']
}

pub open spec fn digit_text(k: nat) -> Seq<char> {
    seq![digit_char(k)]
}

/// `1` above the boundary, `0` below it, `NaN` on it.
pub open spec fn ge0_spec(x: Seq<char>, d: nat) -> Seq<char> {
    let b = boundary(0, d);
    if value_lt(b, x) {
        digit_text(1)
    } else if value_lt(x, b) {
        digit_text(0)
    } else {
        nan_text()
    }
}

/// `1` strictly between the boundary and the boundary shifted by one, `0`
/// outside, `NaN` on either.
pub open spec fn is0_spec(x: Seq<char>, d: nat) -> Seq<char> {
    let b0 = boundary(0, d);
    let b1 = boundary(1, d);
    if value_lt(x, b0) {
        digit_text(0)
    } else if value_lt(b0, x) && value_lt(x, b1) {
        digit_text(1)
    } else if value_lt(b1, x) {
        digit_text(0)
    } else {
        nan_text()
    }
}

/// The digit `k` where `x` lies strictly between the boundaries shifted by `k`
/// and `k+1`, searched from `k` up; above the last boundary `0`.
pub open spec fn floor_from(x: Seq<char>, d: nat, k: nat) -> Seq<char>
    decreases 10 - k,
{
    if k >= 10 {
        if value_lt(boundary(10, d), x) {
            digit_text(0)
        } else {
            nan_text()
        }
    } else if value_lt(boundary(k, d), x) && value_lt(x, boundary(k + 1, d)) {
        digit_text(k)
    } else {
        floor_from(x, d, k + 1)
    }
}

/// The integer part of `x` for `x` in `[0, 10)`, `0` below the boundary and
/// above ten, `NaN` on any boundary.
pub open spec fn floor1_spec(x: Seq<char>, d: nat) -> Seq<char> {
    if value_lt(x, boundary(0, d)) {
        digit_text(0)
    } else {
        floor_from(x, d, 0)
    }
}

pub open spec fn abs_spec(x: Seq<char>) -> Seq<char> {
    if x.len() > 0 && x[0] == '-' {
        x.drop_first()
    } else {
        x
    }
}

/// A decimal text with a fraction of at least one digit and no trailing zero
/// beyond that one.
pub open spec fn with_fraction(t: Seq<char>) -> Seq<char> {
    let a = if t.contains('.') {
        t
    } else {
        t + seq!['.', '0']
    };
    let b = trim_end(a, '0');
    if b.len() > 0 && b.last() == '.' {
        b.push('0')
    } else {
        b
    }
}

/// Position of the first `c` in `s`, or -1.
pub open spec fn first_index(s: Seq<char>, c: char) -> int
    decreases s.len(),
{
    if s.len() == 0 {
        -1
    } else if s[0] == c {
        0
    } else {
        let k = first_index(s.drop_first(), c);
        if k < 0 {
            -1
        } else {
            k + 1
        }
    }
}

/// `f` with zeros appended up to `d` digits.
pub open spec fn pad_zeros(f: Seq<char>, d: nat) -> Seq<char> {
    if f.len() < d {
        f + repeat_char('0', (d - f.len()) as nat)
    } else {
        f
    }
}

/// The last digit of `f` moved to its front.
pub open spec fn rotate_right1(f: Seq<char>) -> Seq<char> {
    if f.len() == 0 {
        f
    } else {
        seq![f.last()] + f.drop_last()
    }
}

/// The first digit of `f` moved to its end.
pub open spec fn rotate_left1(f: Seq<char>) -> Seq<char> {
    if f.len() == 0 {
        f
    } else {
        f.drop_first().push(f[0])
    }
}

pub open spec fn rotate1(f: Seq<char>, leftward: bool) -> Seq<char> {
    if leftward {
        rotate_left1(f)
    } else {
        rotate_right1(f)
    }
}

/// The fraction of `t`, padded to `d` digits, rotated one place (to the left
/// where `leftward`, else to the right), with trailing zeros trimmed.
pub open spec fn rotated_fraction(t: Seq<char>, d: nat, leftward: bool) -> Seq<char> {
    let n = with_fraction(t);
    let p = first_index(n, '.');
    if p < 0 {
        trim_zeros_spec(n)
    } else {
        trim_zeros_spec(n.take(p + 1) + rotate1(pad_zeros(n.skip(p + 1), d), leftward))
    }
}

pub open spec fn ten_text() -> Seq<char> {
    seq!['1', '0']
}

/// `NaN` where `floor1` of ten times `x` is; otherwise the fraction of `x`
/// rotated one digit to the right.
pub open spec fn left_spec(x: Seq<char>, d: nat) -> Seq<char> {
    if floor1_spec(product_of(x, ten_text()), d) == nan_text() {
        nan_text()
    } else {
        rotated_fraction(x, d, false)
    }
}

/// `NaN` where `floor1` of ten times `x` is; otherwise the fraction of `x`
/// rotated one digit to the left.
pub open spec fn right_spec(x: Seq<char>, d: nat) -> Seq<char> {
    if floor1_spec(product_of(x, ten_text()), d) == nan_text() {
        nan_text()
    } else {
        rotated_fraction(x, d, true)
    }
}

proof fn lemma_boundary_plain(k: nat, d: nat)
    requires
        k <= 10,
    ensures
        is_plain(boundary(k, d)),
{
    let s = boundary(k, d);
    if k == 0 {
        let u = s.drop_first();
        assert(u =~= seq!['0', '.'] + repeat_char('0', d) + seq!['1']);
        assert(u.len() == d + 3);
        assert forall|i: int| 0 <= i < u.len() implies is_digit(#[trigger] u[i]) || u[i] == '.' by {
            if i >= 2 && i < d + 2 {
                assert(u[i] == '0');
            }
        }
        assert forall|i: int, j: int|
            0 <= i < j < u.len() && #[trigger] u[i] == '.' implies #[trigger] u[j] != '.' by {
            if i >= 2 && i < d + 2 {
                assert(u[i] == '0');
            }
            if j >= 2 && j < d + 2 {
                assert(u[j] == '0');
            }
        }
        assert(is_unsigned_plain(u));
    } else {
        assert(s.len() == d + 3);
        assert forall|i: int| 0 <= i < s.len() implies is_digit(#[trigger] s[i]) || s[i] == '.' by {
            if i >= 3 {
                assert(s[i] == '9');
            }
        }
        assert forall|i: int, j: int|
            0 <= i < j < s.len() && #[trigger] s[i] == '.' implies #[trigger] s[j] != '.' by {
            if i >= 3 {
                assert(s[i] == '9');
            }
            if j >= 3 {
                assert(s[j] == '9');
            }
        }
        assert(is_unsigned_plain(s));
    }
}

proof fn lemma_magnitude_repeat(p: Seq<char>, c: char, n: nat)
    requires
        is_digit(c),
    ensures
        magnitude(p + repeat_char(c, n)) * 9 == magnitude(p) * 9 * pow10(n) + (c as int - '0' as int)
            * (pow10(n) - 1),
    decreases n,
{
    if n > 0 {
        let s = p + repeat_char(c, n);
        let s1 = p + repeat_char(c, (n - 1) as nat);
        assert(s.drop_last() =~= s1);
        assert(s.last() == c);
        lemma_magnitude_repeat(p, c, (n - 1) as nat);
        let m1 = magnitude(s1);
        let mp = magnitude(p);
        let q = pow10((n - 1) as nat);
        let dv = c as int - '0' as int;
        assert(magnitude(s) == m1 * 10 + dv);
        assert(pow10(n) == 10 * q);
        assert(magnitude(s) * 9 == mp * 9 * pow10(n) + dv * (pow10(n) - 1)) by (nonlinear_arith)
            requires
                m1 * 9 == mp * 9 * q + dv * (q - 1),
                magnitude(s) == m1 * 10 + dv,
                pow10(n) == 10 * q,
        ;
    } else {
        assert(p + repeat_char(c, 0) =~= p);
        assert(pow10(0) == 1);
        let mp = magnitude(p);
        let dv = c as int - '0' as int;
        assert(mp * 9 == mp * 9 * 1 + dv * (1 - 1)) by (nonlinear_arith);
    }
}

proof fn lemma_fraction_repeat(p: Seq<char>, c: char, n: nat)
    requires
        is_digit(c),
        p.contains('.'),
    ensures
        fraction_len(p + repeat_char(c, n)) == fraction_len(p) + n,
    decreases n,
{
    if n > 0 {
        let s = p + repeat_char(c, n);
        let s1 = p + repeat_char(c, (n - 1) as nat);
        assert(s.drop_last() =~= s1);
        let w = choose|i: int| 0 <= i < p.len() && p[i] == '.';
        assert(s1[w] == '.');
        lemma_fraction_repeat(p, c, (n - 1) as nat);
    } else {
        assert(p + repeat_char(c, 0) =~= p);
    }
}

proof fn lemma_boundary_value_zero(d: nat)
    ensures
        mantissa(boundary(0, d)) == -1,
        scale(boundary(0, d)) == d + 1,
{
    let s = boundary(0, d);
    let p = seq!['0', '.'];
    let u = s.drop_first();
    let q = p + repeat_char('0', d);
    assert(u =~= q.push('1'));
    assert(p.drop_last() =~= seq!['0']);
    assert(seq!['0'].drop_last() =~= Seq::<char>::empty());
    assert(magnitude(Seq::<char>::empty()) == 0);
    assert(magnitude(seq!['0']) == magnitude(Seq::<char>::empty()) * 10 + ('0' as int - '0' as int));
    assert(magnitude(seq!['0']) == 0);
    assert(magnitude(p) == 0);
    lemma_magnitude_repeat(p, '0', d);
    lemma_pow10_pos(d);
    assert(magnitude(q) == 0) by (nonlinear_arith)
        requires
            magnitude(q) * 9 == magnitude(p) * 9 * pow10(d) + ('0' as int - '0' as int) * (pow10(d) - 1),
            magnitude(p) == 0,
    ;
    assert(u.drop_last() =~= q);
    assert(magnitude(u) == 1);
    let r = seq!['-', '0', '.'];
    let t = r + repeat_char('0', d);
    assert(s =~= t.push('1'));
    assert(r[2] == '.');
    lemma_fraction_repeat(r, '0', d);
    assert(r.drop_last() =~= seq!['-', '0']);
    assert(fraction_len(r) == 0);
    assert(t[2] == '.');
    assert(t.contains('.'));
    assert(s.drop_last() =~= t);
    assert(fraction_len(s) == fraction_len(t) + 1);
}

proof fn lemma_boundary_value_shifted(k: nat, d: nat)
    requires
        1 <= k <= 10,
    ensures
        mantissa(boundary(k, d)) == k * pow10(d + 1) - 1,
        scale(boundary(k, d)) == d + 1,
{
    let s = boundary(k, d);
    let p = seq![digit_char((k - 1) as nat), '.'];
    assert(s =~= p + repeat_char('9', d + 1));
    assert(p.drop_last() =~= seq![digit_char((k - 1) as nat)]);
    let c = digit_char((k - 1) as nat);
    assert(seq![c].drop_last() =~= Seq::<char>::empty());
    assert(c as int == '0' as int + (k - 1));
    assert(magnitude(Seq::<char>::empty()) == 0);
    assert(magnitude(seq![c]) == magnitude(Seq::<char>::empty()) * 10 + (c as int - '0' as int));
    assert(magnitude(p) == k - 1);
    lemma_magnitude_repeat(p, '9', d + 1);
    assert(p[1] == '.');
    lemma_fraction_repeat(p, '9', d + 1);
    assert(p.drop_last().last() != '.');
    assert(fraction_len(p) == 0);
    assert(s[0] != '-');
    let pw = pow10(d + 1);
    assert(magnitude(s) * 9 == (k - 1) * 9 * pw + 9 * (pw - 1));
    assert(magnitude(s) == k * pw - 1) by (nonlinear_arith)
        requires
            magnitude(s) * 9 == (k - 1) * 9 * pw + 9 * (pw - 1),
    ;
}

/// The boundary shifted by `k` is worth `k - 10^-(d+1)`: its digits read
/// `k * 10^(d+1) - 1`, with `d+1` of them after the point.
pub proof fn lemma_boundary_value(k: nat, d: nat)
    requires
        k <= 10,
    ensures
        mantissa(boundary(k, d)) == k * pow10(d + 1) - 1,
        scale(boundary(k, d)) == d + 1,
{
    if k == 0 {
        lemma_boundary_value_zero(d);
    } else {
        lemma_boundary_value_shifted(k, d);
    }
}

/// `ge0` of the boundary itself cannot tell: it answers `NaN`; so does `is0`.
pub proof fn lemma_boundary_is_undecided(d: nat)
    ensures
        ge0_spec(boundary(0, d), d) == nan_text(),
        is0_spec(boundary(0, d), d) == nan_text(),
{
    lemma_boundary_value(0, d);
    lemma_boundary_value(1, d);
    lemma_pow10_pos(d + 1);
    let b0 = boundary(0, d);
    let b1 = boundary(1, d);
    assert(!value_lt(b0, b0));
    assert(!value_lt(b1, b0));
}

proof fn lemma_one_value()
    ensures
        mantissa(seq!['1']) == 1,
        scale(seq!['1']) == 0,
{
    assert(seq!['1'].drop_last() =~= Seq::<char>::empty());
    assert(magnitude(Seq::<char>::empty()) == 0);
    assert(magnitude(seq!['1']) == magnitude(Seq::<char>::empty()) * 10 + ('1' as int - '0' as int));
    assert(fraction_len(seq!['1']) == 0);
}

/// A number one whole unit above the boundary is classified `1`.
pub proof fn lemma_ge0_one_above(x: Seq<char>, d: nat)
    requires
        is_sum(x, boundary(0, d), seq!['1']),
    ensures
        ge0_spec(x, d) == digit_text(1),
{
    let b = boundary(0, d);
    lemma_one_value();
    lemma_pow10_pos(scale(x) + scale(b));
    assert(pow10(0) == 1);
    assert(at_scale(seq!['1'], scale(x) + scale(b)) > 0) by (nonlinear_arith)
        requires
            at_scale(seq!['1'], scale(x) + scale(b)) == 1 * pow10(scale(x) + scale(b)),
            pow10(scale(x) + scale(b)) > 0,
    ;
    assert(value_lt(b, x));
}

/// A number one whole unit below the boundary is classified `0`.
pub proof fn lemma_ge0_one_below(x: Seq<char>, d: nat)
    requires
        is_sum(boundary(0, d), x, seq!['1']),
    ensures
        ge0_spec(x, d) == digit_text(0),
{
    let b = boundary(0, d);
    lemma_one_value();
    lemma_pow10_pos(scale(b) + scale(x));
    assert(pow10(0) == 1);
    assert(at_scale(seq!['1'], scale(b) + scale(x)) > 0) by (nonlinear_arith)
        requires
            at_scale(seq!['1'], scale(b) + scale(x)) == 1 * pow10(scale(b) + scale(x)),
            pow10(scale(b) + scale(x)) > 0,
    ;
    assert(value_lt(x, b));
    lemma_value_lt_asym(x, b);
}

/// Every shifted boundary lies below ten.
proof fn lemma_boundary_below_ten(k: nat, d: nat)
    requires
        k <= 10,
    ensures
        value_lt(boundary(k, d), ten_text()),
{
    lemma_boundary_value(k, d);
    reveal_with_fuel(magnitude, 3);
    reveal_with_fuel(fraction_len, 3);
    let t = ten_text();
    assert(t.drop_last() =~= seq!['1']);
    assert(seq!['1'].drop_last() =~= Seq::<char>::empty());
    assert(mantissa(t) == 10);
    assert(scale(t) == 0);
    assert(pow10(0) == 1);
    lemma_pow10_pos(d + 1);
    let pw = pow10(d + 1);
    assert((k * pw - 1) * 1 < 10 * pw) by (nonlinear_arith)
        requires
            k <= 10,
            pw > 0,
    ;
}

proof fn lemma_floor_from_above_ten(x: Seq<char>, d: nat, k: nat)
    requires
        k <= 10,
        value_lt(ten_text(), x),
    ensures
        floor_from(x, d, k) == digit_text(0),
    decreases 10 - k,
{
    lemma_boundary_below_ten(k, d);
    lemma_value_lt_trans(boundary(k, d), ten_text(), x);
    if k < 10 {
        lemma_boundary_below_ten(k + 1, d);
        lemma_value_lt_trans(boundary(k + 1, d), ten_text(), x);
        lemma_value_lt_asym(x, boundary(k + 1, d));
        lemma_floor_from_above_ten(x, d, k + 1);
    }
}

/// `floor1` of any number above ten is `0`, not its floor.
pub proof fn lemma_floor1_above_ten(x: Seq<char>, d: nat)
    requires
        value_lt(ten_text(), x),
    ensures
        floor1_spec(x, d) == digit_text(0),
{
    lemma_boundary_below_ten(0, d);
    lemma_value_lt_trans(boundary(0, d), ten_text(), x);
    lemma_value_lt_asym(x, boundary(0, d));
    lemma_floor_from_above_ten(x, d, 0);
}

fn push_repeat(v: &mut Vec<char>, c: char, n: usize)
    ensures
        final(v)@ == old(v)@ + repeat_char(c, n as nat),
{
    let mut i: usize = 0;
    while i < n
        invariant
            i <= n,
            v@ == old(v)@ + repeat_char(c, i as nat),
        decreases n - i,
    {
        v.push(c);
        i += 1;
        assert(repeat_char(c, i as nat) =~= repeat_char(c, (i - 1) as nat).push(c));
    }
}

/// The boundary shifted up by `k`, as a number.
pub fn boundary_dec(k: u8, d: usize) -> (r: Dec)
    requires
        k <= 10,
    ensures
        r@ == boundary(k as nat, d as nat),
{
    let mut v: Vec<char> = Vec::new();
    if k == 0 {
        v.push('-');
        v.push('0');
        v.push('.');
        push_repeat(&mut v, '0', d);
        v.push('1');
    } else {
        v.push((('0' as u8) + (k - 1)) as char);
        v.push('.');
        v.push('9');
        push_repeat(&mut v, '9', d);
    }
    assert(v@ =~= boundary(k as nat, d as nat));
    proof {
        lemma_boundary_plain(k as nat, d as nat);
    }
    Dec::from_chars(&v)
}

fn nan_string() -> (r: String)
    ensures
        r@ == nan_text(),
{
    let mut v: Vec<char> = Vec::new();
    v.push('N');
    v.push('a');
    v.push('N');
    assert(v@ =~= nan_text());
    string_of_chars(&v)
}

fn digit_string(k: u8) -> (r: String)
    requires
        k <= 9,
    ensures
        r@ == digit_text(k as nat),
{
    make_string((('0' as u8) + k) as char)
}

/// The boundary the session `cfg` classifies with, in plain text.
pub fn get_nan(cfg: &Config) -> (r: String)
    ensures
        r@ == boundary(0, cfg.decimal_places as nat),
{
    boundary_dec(0, cfg.decimal_places).to_plain_string()
}

/// The number of fractional digits of the session `cfg`.
pub fn get_decimal_places(cfg: &Config) -> (r: usize)
    ensures
        r == cfg.decimal_places,
{
    cfg.decimal_places
}

/// The absolute value of `x`, in plain text.
pub fn abs(x: &Dec) -> (r: String)
    ensures
        r@ == abs_spec(x@),
{
    let v = x.chars();
    let mut out: Vec<char> = Vec::new();
    let start: usize = if v.len() > 0 && v[0] == '-' { 1 } else { 0 };
    let mut i: usize = start;
    while i < v.len()
        invariant
            start <= i <= v.len(),
            out@ == v@.subrange(start as int, i as int),
        decreases v.len() - i,
    {
        out.push(v[i]);
        i += 1;
        assert(v@.subrange(start as int, i as int) == v@.subrange(start as int, i - 1).push(v@[i - 1]));
    }
    assert(out@ =~= abs_spec(x@));
    string_of_chars(&out)
}

/// Classifies `x` against the boundary: `1` above, `0` below, `NaN` on it.
pub fn ge0(x: &Dec, cfg: &Config) -> (r: String)
    ensures
        r@ == ge0_spec(x@, cfg.decimal_places as nat),
{
    let b = boundary_dec(0, cfg.decimal_places);
    if dec_lt(&b, x) {
        digit_string(1)
    } else if dec_lt(x, &b) {
        digit_string(0)
    } else {
        nan_string()
    }
}

/// `1` for `x` in the band from the boundary to one above it, `0` outside,
/// `NaN` on either edge.
pub fn is0(x: &Dec, cfg: &Config) -> (r: String)
    ensures
        r@ == is0_spec(x@, cfg.decimal_places as nat),
{
    let b0 = boundary_dec(0, cfg.decimal_places);
    let b1 = boundary_dec(1, cfg.decimal_places);
    if dec_lt(x, &b0) {
        digit_string(0)
    } else if dec_lt(&b0, x) && dec_lt(x, &b1) {
        digit_string(1)
    } else if dec_lt(&b1, x) {
        digit_string(0)
    } else {
        nan_string()
    }
}

/// The integer part of `x` as one digit, for `x` from zero up to ten; `0`
/// below zero and above ten; `NaN` on a boundary.
pub fn floor1(x: &Dec, cfg: &Config) -> (r: String)
    ensures
        r@ == floor1_spec(x@, cfg.decimal_places as nat),
{
    let d = cfg.decimal_places;
    let b0 = boundary_dec(0, d);
    if dec_lt(x, &b0) {
        return digit_string(0);
    }
    let mut k: u8 = 0;
    while k < 10
        invariant
            k <= 10,
            d == cfg.decimal_places,
            floor1_spec(x@, d as nat) == floor_from(x@, d as nat, k as nat),
        decreases 10 - k,
    {
        let lo = boundary_dec(k, d);
        let hi = boundary_dec(k + 1, d);
        assert(hi@ == boundary(k as nat + 1, d as nat));
        if dec_lt(&lo, x) && dec_lt(x, &hi) {
            assert(floor_from(x@, d as nat, k as nat) == digit_text(k as nat));
            return digit_string(k);
        }
        k += 1;
    }
    let top = boundary_dec(10, d);
    if dec_lt(&top, x) {
        digit_string(0)
    } else {
        nan_string()
    }
}

pub proof fn lemma_first_index(s: Seq<char>, c: char, i: int)
    requires
        0 <= i < s.len(),
        s[i] == c,
        forall|j: int| 0 <= j < i ==> s[j] != c,
    ensures
        first_index(s, c) == i,
    decreases i,
{
    if i > 0 {
        lemma_first_index(s.drop_first(), c, i - 1);
    }
}

pub proof fn lemma_no_index(s: Seq<char>, c: char)
    requires
        forall|j: int| 0 <= j < s.len() ==> s[j] != c,
    ensures
        first_index(s, c) == -1,
    decreases s.len(),
{
    if s.len() > 0 {
        lemma_no_index(s.drop_first(), c);
    }
}

fn push_rotated(out: &mut Vec<char>, frac: &Vec<char>, leftward: bool)
    ensures
        final(out)@ == old(out)@ + rotate1(frac@, leftward),
{
    if frac.len() == 0 {
        assert(old(out)@ + rotate1(frac@, leftward) =~= old(out)@);
        return;
    }
    let ghost start = out@;
    let (from, to): (usize, usize) = if leftward { (1, frac.len()) } else { (0, frac.len() - 1) };
    if !leftward {
        out.push(frac[frac.len() - 1]);
    }
    let ghost mid = out@;
    let mut q: usize = from;
    while q < to
        invariant
            from <= q <= to <= frac.len(),
            out@ == mid + frac@.subrange(from as int, q as int),
        decreases to - q,
    {
        out.push(frac[q]);
        q += 1;
        assert(frac@.subrange(from as int, q as int) == frac@.subrange(from as int, q - 1).push(
            frac@[q - 1],
        ));
    }
    if leftward {
        out.push(frac[0]);
        assert(frac@.subrange(1, frac.len() as int) == frac@.drop_first());
        assert(out@ =~= start + rotate1(frac@, leftward));
    } else {
        assert(frac@.subrange(0, frac.len() - 1) == frac@.drop_last());
        assert(out@ =~= start + rotate1(frac@, leftward));
    }
}

/// The fraction of `t` rotated one digit (see `rotated_fraction`).
#[verifier::rlimit(60)]
fn rotate_fraction_chars(t: &Vec<char>, d: usize, leftward: bool) -> (r: Vec<char>)
    ensures
        r@ == rotated_fraction(t@, d as nat, leftward),
{
    let mut n: Vec<char> = t.clone();
    if !contains_char(&n, '.') {
        n.push('.');
        n.push('0');
        assert(n@ =~= t@ + seq!['.', '0']);
    }
    trim_end_chars(&mut n, '0');
    if n.len() > 0 && n[n.len() - 1] == '.' {
        n.push('0');
    }
    assert(n@ == with_fraction(t@));
    let mut p: usize = 0;
    while p < n.len() && n[p] != '.'
        invariant
            p <= n.len(),
            forall|j: int| 0 <= j < p ==> n@[j] != '.',
        decreases n.len() - p,
    {
        p += 1;
    }
    if p == n.len() {
        proof {
            lemma_no_index(n@, '.');
        }
        trim_zeros_chars(&mut n);
        return n;
    }
    proof {
        lemma_first_index(n@, '.', p as int);
    }
    let mut out: Vec<char> = Vec::new();
    let mut i: usize = 0;
    while i <= p
        invariant
            p < n.len(),
            i <= p + 1,
            out@ == n@.take(i as int),
        decreases p + 1 - i,
    {
        out.push(n[i]);
        i += 1;
        assert(n@.take(i as int) == n@.take(i - 1).push(n@[i - 1]));
    }
    let mut frac: Vec<char> = Vec::new();
    let mut j: usize = p + 1;
    while j < n.len()
        invariant
            p < j <= n.len(),
            frac@ == n@.subrange(p + 1, j as int),
        decreases n.len() - j,
    {
        frac.push(n[j]);
        j += 1;
        assert(n@.subrange(p + 1, j as int) == n@.subrange(p + 1, j - 1).push(n@[j - 1]));
    }
    assert(frac@ == n@.skip(p + 1));
    if frac.len() < d {
        let fill = d - frac.len();
        push_repeat(&mut frac, '0', fill);
    }
    assert(frac@ == pad_zeros(n@.skip(p + 1), d as nat));
    push_rotated(&mut out, &frac, leftward);
    trim_zeros_chars(&mut out);
    out
}

/// Rotates the fractional digits of `x`, padded to the session's number of
/// places, one position to the right; `NaN` where `floor1` of ten times `x`
/// is `NaN`.
pub fn left(x: &Dec, cfg: &Config) -> (r: String)
    ensures
        r@ == left_spec(x@, cfg.decimal_places as nat),
{
    let mut tv: Vec<char> = Vec::new();
    tv.push('1');
    tv.push('0');
    assert(tv@ =~= ten_text());
    assert(is_plain(tv@)) by {
        assert(is_unsigned_plain(tv@));
    }
    let ten = Dec::from_chars(&tv);
    let prod = dec_mul(x, &ten);
    let f = floor1(&prod, cfg);
    let fv = crate::text::chars_of(f.as_str());
    if fv.len() == 3 && fv[0] == 'N' && fv[1] == 'a' && fv[2] == 'N' {
        assert(fv@ =~= nan_text());
        return nan_string();
    }
    assert(fv@ != nan_text());
    let t = x.chars();
    let r = rotate_fraction_chars(&t, cfg.decimal_places, false);
    string_of_chars(&r)
}

/// Rotates the fractional digits of `x`, padded to the session's number of
/// places, one position to the left; `NaN` where `floor1` of ten times `x`
/// is `NaN`.
pub fn right(x: &Dec, cfg: &Config) -> (r: String)
    ensures
        r@ == right_spec(x@, cfg.decimal_places as nat),
{
    let mut tv: Vec<char> = Vec::new();
    tv.push('1');
    tv.push('0');
    assert(tv@ =~= ten_text());
    assert(is_plain(tv@)) by {
        assert(is_unsigned_plain(tv@));
    }
    let ten = Dec::from_chars(&tv);
    let prod = dec_mul(x, &ten);
    let f = floor1(&prod, cfg);
    let fv = crate::text::chars_of(f.as_str());
    if fv.len() == 3 && fv[0] == 'N' && fv[1] == 'a' && fv[2] == 'N' {
        assert(fv@ =~= nan_text());
        return nan_string();
    }
    assert(fv@ != nan_text());
    let t = x.chars();
    let r = rotate_fraction_chars(&t, cfg.decimal_places, true);
    string_of_chars(&r)
}

} // verus!
