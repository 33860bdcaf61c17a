//! `left` undoes `right`: the two rotations of the fractional digits are
//! inverse to each other, up to trailing zeros.
use vstd::prelude::*;
use crate::decimal::{fraction_len, is_plain, product_of};
use crate::math_trick::{
    first_index, floor1_spec, lemma_first_index, left_spec, nan_text, pad_zeros, repeat_char,
    right_spec, rotate1, rotate_left1, rotate_right1, rotated_fraction, ten_text, with_fraction,
};
use crate::text::{is_digit, trim_end, trim_zeros_spec};

verus! {

proof fn lemma_trim_end_concat(x: Seq<char>, y: Seq<char>, c: char)
    ensures
        trim_end(y, c).len() > 0 ==> trim_end(x + y, c) == x + trim_end(y, c),
        trim_end(y, c).len() == 0 ==> trim_end(x + y, c) == trim_end(x, c),
    decreases y.len(),
{
    if y.len() == 0 {
        assert(x + y =~= x);
    } else if y.last() == c {
        assert((x + y).drop_last() =~= x + y.drop_last());
        lemma_trim_end_concat(x, y.drop_last(), c);
    } else {
        assert((x + y).last() == y.last());
    }
}

proof fn lemma_trim_end_split(y: Seq<char>, c: char)
    ensures
        y =~= trim_end(y, c) + repeat_char(c, (y.len() - trim_end(y, c).len()) as nat),
        trim_end(y, c).len() <= y.len(),
        trim_end(y, c).len() > 0 ==> trim_end(y, c).last() != c,
    decreases y.len(),
{
    if y.len() > 0 && y.last() == c {
        lemma_trim_end_split(y.drop_last(), c);
        let t = trim_end(y, c);
        let k = (y.len() - t.len()) as nat;
        assert(repeat_char(c, k) =~= repeat_char(c, (k - 1) as nat).push(c));
        assert(y =~= y.drop_last().push(c));
    } else {
        assert(repeat_char(c, 0) =~= Seq::<char>::empty());
    }
}

proof fn lemma_trim_end_repeat(x: Seq<char>, c: char, k: nat)
    ensures
        trim_end(x + repeat_char(c, k), c) == trim_end(x, c),
    decreases k,
{
    if k == 0 {
        assert(x + repeat_char(c, 0) =~= x);
    } else {
        let s = x + repeat_char(c, k);
        assert(s.drop_last() =~= x + repeat_char(c, (k - 1) as nat));
        assert(s.last() == c);
        lemma_trim_end_repeat(x, c, (k - 1) as nat);
    }
}

proof fn lemma_no_dot_first_index(a: Seq<char>, f: Seq<char>)
    requires
        !a.contains('.'),
    ensures
        first_index(a + seq!['.'] + f, '.') == a.len(),
        (a + seq!['.'] + f).take(a.len() as int + 1) =~= a + seq!['.'],
        (a + seq!['.'] + f).skip(a.len() as int + 1) =~= f,
{
    let s = a + seq!['.'] + f;
    assert forall|j: int| 0 <= j < a.len() implies s[j] != '.' by {
        assert(s[j] == a[j]);
    }
    lemma_first_index(s, '.', a.len() as int);
}

proof fn lemma_fraction_len_split(a: Seq<char>, b: Seq<char>)
    requires
        !b.contains('.'),
    ensures
        fraction_len(a + seq!['.'] + b) == b.len(),
    decreases b.len(),
{
    let s = a + seq!['.'] + b;
    if b.len() > 0 {
        assert(s.drop_last() =~= a + seq!['.'] + b.drop_last());
        assert(s.drop_last()[a.len() as int] == '.');
        assert(s.last() == b.last());
        assert(b.contains(b.last()) ==> b.last() != '.');
        assert(b[b.len() - 1] == b.last());
        lemma_fraction_len_split(a, b.drop_last());
    } else {
        assert(s.last() == '.');
    }
}

/// A plain text split at its point: the part before holds no point, the
/// part after is digits only.
proof fn lemma_plain_split(v: Seq<char>, k: int)
    requires
        is_plain(v),
        0 <= k < v.len(),
        v[k] == '.',
    ensures
        !v.take(k).contains('.'),
        !v.skip(k + 1).contains('.'),
        v.skip(k + 1).len() > 0,
        forall|i: int| 0 <= i < v.skip(k + 1).len() ==> is_digit(#[trigger] v.skip(k + 1)[i]),
        v =~= v.take(k) + seq!['.'] + v.skip(k + 1),
        v.take(k).len() > 0,
        is_digit(v.take(k).last()),
{
    let neg = v.len() > 0 && v[0] == '-';
    let u = if neg { v.drop_first() } else { v };
    let o: int = if neg { 1 } else { 0 };
    assert(crate::decimal::is_unsigned_plain(u));
    assert(u[k - o] == v[k]);
    assert forall|i: int| 0 <= i < v.len() && i != k implies v[i] != '.' by {
        if neg && i == 0 {
            assert(v[0] == '-');
        } else if i < k {
            assert(u[i - o] == v[i]);
            assert(u[i - o] == '.' ==> u[k - o] != '.');
        } else {
            assert(u[i - o] == v[i]);
            assert(u[k - o] == '.' ==> u[i - o] != '.');
        }
    }
    assert(u[k - o] == '.');
    assert(k - o != 0);
    assert(k != u.len() - 1 + o);
    assert forall|i: int| 0 <= i < v.skip(k + 1).len() implies is_digit(#[trigger] v.skip(k + 1)[i]) by {
        assert(v.skip(k + 1)[i] == u[k + 1 + i - o]);
    }
    assert(v.take(k).last() == u[k - 1 - o]);
}

proof fn lemma_plain_no_point(v: Seq<char>)
    requires
        is_plain(v),
        !v.contains('.'),
    ensures
        v.len() > 0,
        is_digit(v.last()),
{
    let neg = v.len() > 0 && v[0] == '-';
    let u = if neg { v.drop_first() } else { v };
    assert(u.last() == v.last());
}

/// `with_fraction` of a plain `v`: the digits before the point, the point,
/// and a nonempty fraction without trailing zeros (or the single `0`).
proof fn lemma_with_fraction_shape(v: Seq<char>) -> (r: (Seq<char>, Seq<char>))
    requires
        is_plain(v),
    ensures
        with_fraction(v) =~= r.0 + seq!['.'] + r.1,
        !r.0.contains('.'),
        r.0.len() > 0,
        is_digit(r.0.last()),
        r.1.len() > 0,
        !r.1.contains('.'),
        forall|i: int| 0 <= i < r.1.len() ==> is_digit(#[trigger] r.1[i]),
        r.1 == seq!['0'] || r.1.last() != '0',
        r.1.len() <= fraction_len(v) || r.1 == seq!['0'],
        trim_zeros_spec(v) == trim_end(trim_end(r.0 + seq!['.'] + r.1, '0'), '.'),
{
    if !v.contains('.') {
        lemma_plain_no_point(v);
        let a = v + seq!['.', '0'];
        assert(a.drop_last() =~= v + seq!['.']);
        assert(trim_end(a, '0') == trim_end(v + seq!['.'], '0'));
        assert((v + seq!['.']).last() == '.');
        let n = (v + seq!['.']).push('0');
        assert(with_fraction(v) == n);
        assert(n =~= v + seq!['.'] + seq!['0']);
        assert(n.drop_last() =~= v + seq!['.']);
        assert(trim_end(n, '0') == v + seq!['.']);
        assert((v + seq!['.']).drop_last() =~= v);
        assert(trim_end(v + seq!['.'], '.') == trim_end(v, '.'));
        assert(trim_end(v, '.') == v);
        assert(seq!['0'].contains('0') && seq!['0'][0] == '0');
        (v, seq!['0'])
    } else {
        let k = choose|k: int| 0 <= k < v.len() && v[k] == '.';
        lemma_plain_split(v, k);
        let a = v.take(k);
        let b = v.skip(k + 1);
        lemma_fraction_len_split(a, b);
        lemma_trim_end_concat(a + seq!['.'], b, '0');
        lemma_trim_end_split(b, '0');
        let b1 = trim_end(b, '0');
        assert((a + seq!['.']).last() == '.');
        assert forall|i: int| 0 <= i < b1.len() implies is_digit(#[trigger] b1[i]) by {
            assert(b1[i] == b[i]);
        }
        assert(!b1.contains('.')) by {
            if b1.contains('.') {
                let i = choose|i: int| 0 <= i < b1.len() && b1[i] == '.';
                assert(b1[i] == b[i]);
            }
        }
        if b1.len() > 0 {
            assert(trim_end(v, '0') =~= a + seq!['.'] + b1);
            assert(with_fraction(v) =~= a + seq!['.'] + b1);
            assert(trim_end(trim_end(v, '0'), '.') == trim_end(a + seq!['.'] + b1, '.'));
            (a, b1)
        } else {
            assert(trim_end(v, '0') == trim_end(a + seq!['.'], '0'));
            assert(trim_end(a + seq!['.'], '0') == a + seq!['.']);
            let n = (a + seq!['.']).push('0');
            assert(with_fraction(v) == n);
            assert(n.drop_last() =~= a + seq!['.']);
            assert(trim_end(n, '0') == a + seq!['.']);
            assert(n =~= a + seq!['.'] + seq!['0']);
            assert(seq!['0'][0] == '0');
            (a, seq!['0'])
        }
    }
}

proof fn lemma_rotations_inverse(p: Seq<char>)
    requires
        p.len() > 0,
    ensures
        rotate_right1(rotate_left1(p)) =~= p,
{
    let q = rotate_left1(p);
    assert(q.last() == p[0]);
    assert(q.drop_last() =~= p.drop_first());
}

/// `left(right(v))` is `v` without trailing fractional zeros, for a plain
/// `v` whose fraction fits in `d` places, wherever neither rotation falls on
/// a boundary (where each answers `NaN` instead).
pub proof fn lemma_left_undoes_right(v: Seq<char>, d: nat)
    requires
        is_plain(v),
        fraction_len(v) <= d,
        floor1_spec(product_of(v, ten_text()), d) != nan_text(),
        floor1_spec(product_of(right_spec(v, d), ten_text()), d) != nan_text(),
    ensures
        left_spec(right_spec(v, d), d) == trim_zeros_spec(v),
{
    let (a, f) = lemma_with_fraction_shape(v);
    lemma_no_dot_first_index(a, f);
    let p = pad_zeros(f, d);
    let k: nat = if f.len() <= d { (d - f.len()) as nat } else { 0 };
    assert(p =~= f + repeat_char('0', k));
    let q = rotate_left1(p);
    if d == 0 {
        assert(f =~= seq!['0']);
        assert(p =~= seq!['0']);
        assert(q =~= seq!['0']);
        assert(seq!['0'].drop_last() =~= Seq::<char>::empty());
        assert(trim_end(q, '0') == trim_end(Seq::<char>::empty(), '0'));
    } else {
        assert(p.len() == d);
    }
    assert(q.len() == p.len());
    assert forall|i: int| 0 <= i < q.len() implies is_digit(#[trigger] q[i]) by {
        if i < p.len() - 1 {
            assert(q[i] == p[i + 1]);
        } else {
            assert(q[i] == p[0]);
        }
        assert(p[i] == f[i] || p[i] == '0') by {
            if i < f.len() {
                assert(p[i] == f[i]);
            }
        }
        assert(is_digit(p[0])) by {
            assert(p[0] == f[0]);
        }
        if i + 1 < p.len() {
            if i + 1 < f.len() {
                assert(p[i + 1] == f[i + 1]);
            } else {
                assert(p[i + 1] == '0');
            }
        }
    }
    assert(rotate1(p, true) == q);
    let x = a + seq!['.'] + q;
    assert(rotated_fraction(v, d, true) == trim_zeros_spec(x));
    assert(x.contains('.')) by {
        assert(x[a.len() as int] == '.');
    }
    lemma_trim_end_concat(a + seq!['.'], q, '0');
    lemma_trim_end_split(q, '0');
    let q1 = trim_end(q, '0');
    let r = right_spec(v, d);
    assert(!q1.contains('.')) by {
        if q1.contains('.') {
            let i = choose|i: int| 0 <= i < q1.len() && q1[i] == '.';
            assert(q1[i] == q[i]);
        }
    }
    if q1.len() > 0 {
        assert(trim_end(x, '0') =~= a + seq!['.'] + q1);
        assert(q1.last() != '.') by {
            assert(q1.last() == q[q1.len() - 1]);
        }
        assert((a + seq!['.'] + q1).last() == q1.last());
        assert(r == a + seq!['.'] + q1);
        assert(r.contains('.')) by {
            assert(r[a.len() as int] == '.');
        }
        assert((a + seq!['.'] + q1).last() != '0');
        assert(with_fraction(r) == r);
        lemma_no_dot_first_index(a, q1);
        assert(pad_zeros(q1, d) =~= q);
    } else {
        assert(trim_end(x, '0') == trim_end(a + seq!['.'], '0'));
        assert((a + seq!['.']).last() == '.');
        assert((a + seq!['.']).drop_last() =~= a);
        assert(trim_end(a, '.') == a);
        assert(r == a);
        assert(!r.contains('.'));
        let w = a + seq!['.', '0'];
        assert(w.drop_last() =~= a + seq!['.']);
        assert(trim_end(w, '0') == a + seq!['.']);
        assert(with_fraction(r) == (a + seq!['.']).push('0'));
        assert((a + seq!['.']).push('0') =~= a + seq!['.'] + seq!['0']);
        lemma_no_dot_first_index(a, seq!['0']);
        assert(pad_zeros(seq!['0'], d) =~= q);
    }
    lemma_rotations_inverse(p);
    assert(rotate1(q, false) == p);
    let y = a + seq!['.'] + p;
    assert(left_spec(r, d) == trim_zeros_spec(y));
    assert(y.contains('.')) by {
        assert(y[a.len() as int] == '.');
    }
    assert(y =~= (a + seq!['.'] + f) + repeat_char('0', k));
    lemma_trim_end_repeat(a + seq!['.'] + f, '0', k);
}

} // verus!
