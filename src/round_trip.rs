//! Printing a tree and parsing the text back gives the same tree, for trees
//! of `+ - * /` whose grouping follows the operators' precedence.
use vstd::prelude::*;
use crate::parser::{
    additive_rest, digit_run_end, multiplicative_rest, name_end, number_end, p_additive,
    p_atomic, p_multiplicative, p_power, p_unary, parse_spec, power_rest, repeat_suffix,
    skip_close,
};
use crate::eval::{eval, Outcome};
use crate::render::render;
use crate::tree::Tablet;
use crate::text::{is_digit, is_name_char, is_ws, strip_ws};
use crate::tree::{size, Tree};

verus! {

/// Digits with at most one `.`, starting with a digit: `12`, `0.5`, `3.`.
pub open spec fn is_number_literal(s: Seq<char>) -> bool {
    &&& s.len() > 0
    &&& is_digit(s[0])
    &&& forall|i: int| 0 <= i < s.len() ==> is_digit(#[trigger] s[i]) || s[i] == '.'
    &&& forall|i: int, j: int| 0 <= i < j < s.len() && #[trigger] s[i] == '.' ==> #[trigger] s[j] != '.'
}

/// A number (negative ones as the parser reads them, `-2`), `x`, or a group
/// around an operand that is neither empty nor a group.
pub open spec fn primary(t: Tree) -> bool
    decreases size(t), 0nat,
{
    match t {
        Tree::Num(s) => is_number_literal(s) || (s.len() > 0 && s[0] == '-' && is_number_literal(
            s.drop_first(),
        )),
        Tree::Var(v) => v == seq!['x'],
        Tree::Paren(e) => !(*e is Paren) && additive(*e),
        _ => false,
    }
}

/// A product or quotient chain: its left operand is one too, its right a primary.
pub open spec fn multiplicative(t: Tree) -> bool
    decreases size(t), 1nat,
{
    match t {
        Tree::Op(op, l, r) => (op == '*' || op == '/') && multiplicative(*l) && primary(*r),
        _ => primary(t),
    }
}

/// A sum or difference chain: its left operand is one too, its right a product chain.
pub open spec fn additive(t: Tree) -> bool
    decreases size(t), 2nat,
{
    match t {
        Tree::Op(op, l, r) => if op == '+' || op == '-' {
            additive(*l) && multiplicative(*r)
        } else {
            multiplicative(t)
        },
        _ => multiplicative(t),
    }
}

/// The text of a tree with a parenthesis pair for each group and no other.
pub open spec fn flat(t: Tree) -> Seq<char>
    decreases t,
{
    match t {
        Tree::Op(op, l, r) => flat(*l).push(op) + flat(*r),
        Tree::Num(s) => s,
        Tree::Var(v) => v,
        Tree::Paren(e) => seq!['('] + flat(*e) + seq![')'],
        _ => Seq::empty(),
    }
}

/// What may follow an operand in the text: an operator, `)`, or the end.
pub open spec fn follows_ok(t: Seq<char>, e: int) -> bool {
    e == t.len() || (0 <= e < t.len() && (t[e] == '+' || t[e] == '-' || t[e] == '*' || t[e] == '/'
        || t[e] == ')'))
}

/// What may follow a whole sum: `+`, `-`, `)`, or the end.
pub open spec fn follows_sum(t: Seq<char>, e: int) -> bool {
    e == t.len() || (0 <= e < t.len() && (t[e] == '+' || t[e] == '-' || t[e] == ')'))
}

proof fn lemma_class_shape(t: Tree)
    ensures
        multiplicative(t) ==> additive(t),
        primary(t) ==> multiplicative(t),
        primary(t) ==> !(t is Op),
        multiplicative(t) && t is Op ==> (t->Op_0 == '*' || t->Op_0 == '/') && multiplicative(
            *t->Op_1,
        ) && primary(*t->Op_2),
        additive(t) && t is Op ==> (t->Op_0 == '+' || t->Op_0 == '-' || t->Op_0 == '*' || t->Op_0
            == '/'),
        additive(t) && t is Op && (t->Op_0 == '+' || t->Op_0 == '-') ==> additive(*t->Op_1)
            && multiplicative(*t->Op_2),
        additive(t) && t is Op && !(t->Op_0 == '+' || t->Op_0 == '-') ==> multiplicative(t),
        (additive(t) || primary(t)) && t is Paren ==> additive(*t->Paren_0) && !(*t->Paren_0 is Paren),
        additive(t) ==> (t is Op || t is Num || t is Var || t is Paren),
        additive(t) && !(t is Op) ==> primary(t),
{
    match t {
        Tree::Op(op, l, r) => {
            assert(!primary(t));
            if op == '+' || op == '-' {
                assert(additive(t) == (additive(*l) && multiplicative(*r)));
                assert(!multiplicative(t));
            } else {
                assert(additive(t) == multiplicative(t));
                assert(multiplicative(t) == ((op == '*' || op == '/') && multiplicative(*l) && primary(*r)));
            }
        },
        Tree::Paren(e) => {
            assert(primary(t) == (!(*e is Paren) && additive(*e)));
            assert(multiplicative(t) == primary(t));
            assert(additive(t) == multiplicative(t));
        },
        Tree::Num(_) => {
            assert(multiplicative(t) == primary(t));
            assert(additive(t) == multiplicative(t));
        },
        Tree::Var(_) => {
            assert(multiplicative(t) == primary(t));
            assert(additive(t) == multiplicative(t));
        },
        _ => {
            assert(!primary(t));
            assert(multiplicative(t) == primary(t));
            assert(additive(t) == multiplicative(t));
        },
    }
}

proof fn lemma_digit_run_to(t: Seq<char>, i: int, k: int)
    requires
        0 <= i <= k <= t.len(),
        forall|j: int| i <= j < k ==> is_digit(#[trigger] t[j]),
        k == t.len() || !is_digit(t[k]),
    ensures
        digit_run_end(t, i) == k,
    decreases k - i,
{
    if i < k {
        lemma_digit_run_to(t, i + 1, k);
    }
}

proof fn lemma_number(t: Seq<char>, i: int, s: Seq<char>)
    requires
        0 <= i,
        i + s.len() <= t.len(),
        t.subrange(i, i + s.len()) == s,
        is_number_literal(s),
        follows_ok(t, i + s.len()),
    ensures
        number_end(t, i) == i + s.len(),
{
    let e = i + s.len();
    assert forall|j: int| i <= j < e implies t[j] == s[j - i] by {
        assert(t.subrange(i, e)[j - i] == t[j]);
    }
    if exists|q: int| 0 <= q < s.len() && s[q] == '.' {
        let q = choose|q: int| 0 <= q < s.len() && s[q] == '.';
        assert forall|j: int| i <= j < i + q implies is_digit(#[trigger] t[j]) by {
            assert(s[j - i] == '.' ==> s[q] != '.');
        }
        lemma_digit_run_to(t, i, i + q);
        assert forall|j: int| i + q + 1 <= j < e implies is_digit(#[trigger] t[j]) by {
            assert(s[q] == '.' ==> s[j - i] != '.');
        }
        lemma_digit_run_to(t, i + q + 1, e);
    } else {
        assert forall|j: int| i <= j < e implies is_digit(#[trigger] t[j]) by {
            assert(s[j - i] != '.');
        }
        lemma_digit_run_to(t, i, e);
    }
}

/// A primary at `i` parses back, at the `unary` and `power` levels, to itself.
proof fn lemma_parse_primary(t: Seq<char>, i: int, x: Tree)
    requires
        primary(x),
        0 <= i,
        i + flat(x).len() <= t.len(),
        t.subrange(i, i + flat(x).len()) == flat(x),
        follows_ok(t, i + flat(x).len()),
    ensures
        p_unary(t, i) == (x, i + flat(x).len()),
        p_power(t, i) == (x, i + flat(x).len()),
    decreases size(x), 0nat,
{
    let e = i + flat(x).len();
    match x {
        Tree::Num(s) => {
            assert(t.subrange(i, e)[0] == t[i]);
            if is_number_literal(s) {
                lemma_number(t, i, s);
                assert(p_atomic(t, i) == (x, e));
            } else {
                let u = s.drop_first();
                assert(t.subrange(i + 1, e) =~= u) by {
                    assert(t.subrange(i + 1, e) =~= t.subrange(i, e).subrange(1, s.len() as int));
                }
                assert(t.subrange(i + 1, e)[0] == t[i + 1]);
                assert(is_digit(t[i + 1]));
                lemma_number(t, i + 1, u);
                assert(seq!['-'] + t.subrange(i + 1, e) =~= s);
                assert(p_unary(t, i) == (x, e));
            }
        },
        Tree::Var(v) => {
            assert(t.subrange(i, e)[0] == t[i]);
            assert(t[i] == 'x');
            assert(t.subrange(i, i + 1) == seq!['x']);
            if e < t.len() {
                assert(!is_name_char(t[e]));
            }
            assert(name_end(t, e) == e);
            assert(name_end(t, i) == e);
            assert(repeat_suffix(t, e) == (1usize, e));
            assert(p_atomic(t, i) == (x, e));
        },
        Tree::Paren(inner) => {
            let f = flat(*inner);
            let k = i + 1 + f.len();
            assert(t.subrange(i, e)[0] == t[i]);
            assert(t[i] == '(');
            assert(t.subrange(i + 1, k) =~= f) by {
                assert(t.subrange(i + 1, k) =~= t.subrange(i, e).subrange(1, 1 + f.len() as int));
            }
            assert(t[k] == ')') by {
                assert(t.subrange(i, e)[k - i] == t[k]);
            }
            lemma_parse_sum(t, i + 1, *inner);
            assert(p_atomic(t, i) == (x, e));
        },
        _ => {},
    }
    assert(p_unary(t, i) == (x, e));
    assert(power_rest(t, e, x) == (x, e));
}

/// After a product chain at `i`, the `multiplicative` rule is at its end, in its loop.
proof fn lemma_parse_product(t: Seq<char>, i: int, x: Tree)
    requires
        multiplicative(x),
        0 <= i,
        i + flat(x).len() <= t.len(),
        t.subrange(i, i + flat(x).len()) == flat(x),
        follows_ok(t, i + flat(x).len()),
    ensures
        p_multiplicative(t, i) == multiplicative_rest(t, i + flat(x).len(), x),
    decreases size(x), 1nat,
{
    let e = i + flat(x).len();
    match x {
        Tree::Op(op, l, r) => {
            let fl = flat(*l);
            let el = i + fl.len();
            assert(t.subrange(i, el) =~= fl) by {
                assert(t.subrange(i, el) =~= t.subrange(i, e).subrange(0, fl.len() as int));
            }
            assert(t[el] == op) by {
                assert(t.subrange(i, e)[el - i] == t[el]);
            }
            assert(t.subrange(el + 1, e) =~= flat(*r)) by {
                assert(t.subrange(el + 1, e) =~= t.subrange(i, e).subrange(fl.len() as int + 1, flat(x).len() as int));
            }
            lemma_parse_product(t, i, *l);
            lemma_parse_primary(t, el + 1, *r);
        },
        _ => {
            lemma_parse_primary(t, i, x);
        },
    }
}

/// A sum chain at `i`, closed by `)` or the end, parses back to itself.
proof fn lemma_parse_sum(t: Seq<char>, i: int, x: Tree)
    requires
        additive(x),
        0 <= i,
        i + flat(x).len() <= t.len(),
        t.subrange(i, i + flat(x).len()) == flat(x),
        i + flat(x).len() == t.len() || t[i + flat(x).len()] == ')',
    ensures
        p_additive(t, i) == (x, i + flat(x).len()),
    decreases size(x), 3nat,
{
    lemma_sum_loop(t, i, x);
}

/// After a sum chain at `i`, the `additive` rule is at its end, in its loop.
proof fn lemma_sum_loop(t: Seq<char>, i: int, x: Tree)
    requires
        additive(x),
        0 <= i,
        i + flat(x).len() <= t.len(),
        t.subrange(i, i + flat(x).len()) == flat(x),
        follows_sum(t, i + flat(x).len()),
    ensures
        p_additive(t, i) == additive_rest(t, i + flat(x).len(), x),
    decreases size(x), 2nat,
{
    let e = i + flat(x).len();
    lemma_class_shape(x);
    match x {
        Tree::Op(op, l, r) => {
            if op == '+' || op == '-' {
                let fl = flat(*l);
                let el = i + fl.len();
                assert(t.subrange(i, el) =~= fl) by {
                    assert(t.subrange(i, el) =~= t.subrange(i, e).subrange(0, fl.len() as int));
                }
                assert(t[el] == op) by {
                    assert(t.subrange(i, e)[el - i] == t[el]);
                }
                assert(t.subrange(el + 1, e) =~= flat(*r)) by {
                    assert(t.subrange(el + 1, e) =~= t.subrange(i, e).subrange(
                        fl.len() as int + 1,
                        flat(x).len() as int,
                    ));
                }
                lemma_sum_loop(t, i, *l);
                lemma_parse_product(t, el + 1, *r);
                assert(multiplicative_rest(t, e, *r) == (*r, e));
            } else {
                lemma_parse_product(t, i, x);
                assert(multiplicative_rest(t, e, x) == (x, e));
            }
        },
        _ => {
            lemma_parse_product(t, i, x);
            assert(multiplicative_rest(t, e, x) == (x, e));
        },
    }
}

proof fn lemma_flat_no_ws(x: Tree)
    requires
        additive(x) || primary(x),
    ensures
        forall|k: int| 0 <= k < flat(x).len() ==> !is_ws(#[trigger] flat(x)[k]),
    decreases size(x), 0nat,
{
    lemma_class_shape(x);
    match x {
        Tree::Op(op, l, r) => {
            lemma_class_shape(*l);
            lemma_class_shape(*r);
            lemma_flat_no_ws(*l);
            lemma_flat_no_ws(*r);
            let fl = flat(*l);
            assert forall|k: int| 0 <= k < flat(x).len() implies !is_ws(#[trigger] flat(x)[k]) by {
                if k < fl.len() {
                    assert(flat(x)[k] == fl[k]);
                } else if k > fl.len() {
                    assert(flat(x)[k] == flat(*r)[k - fl.len() - 1]);
                } else {
                    assert(flat(x)[k] == op);
                    assert(op == '+' || op == '-' || op == '*' || op == '/');
                }
            }
        },
        Tree::Paren(e) => {
            lemma_class_shape(*e);
            lemma_flat_no_ws(*e);
            assert forall|k: int| 0 <= k < flat(x).len() implies !is_ws(#[trigger] flat(x)[k]) by {
                if 0 < k < flat(x).len() - 1 {
                    assert(flat(x)[k] == flat(*e)[k - 1]);
                }
            }
        },
        Tree::Num(n) => {
            assert forall|k: int| 0 <= k < flat(x).len() implies !is_ws(#[trigger] flat(x)[k]) by {
                if is_number_literal(n) {
                    assert(is_digit(n[k]) || n[k] == '.');
                } else if k > 0 {
                    assert(n[k] == n.drop_first()[k - 1]);
                    assert(is_digit(n.drop_first()[k - 1]) || n.drop_first()[k - 1] == '.');
                }
            }
        },
        Tree::Var(v) => {
            assert(v == seq!['x']);
        },
        _ => {},
    }
}

proof fn lemma_strip_no_ws(s: Seq<char>)
    requires
        forall|k: int| 0 <= k < s.len() ==> !is_ws(#[trigger] s[k]),
    ensures
        strip_ws(s) == s,
    decreases s.len(),
{
    if s.len() > 0 {
        lemma_strip_no_ws(s.drop_last());
        assert(s.drop_last().push(s.last()) =~= s);
    }
}

proof fn lemma_render_flat(x: Tree, parent: nat, is_root: bool)
    requires
        additive(x),
        x is Op ==> crate::render::prec_of(x->Op_0) >= parent,
        x is Paren ==> parent > 0,
    ensures
        render(x, parent, is_root) == flat(x),
    decreases size(x),
{
    lemma_class_shape(x);
    match x {
        Tree::Op(op, l, r) => {
            lemma_class_shape(*l);
            lemma_class_shape(*r);
            lemma_render_flat(*l, crate::render::prec_of(op), false);
            lemma_render_flat(*r, crate::render::prec_of(op), false);
        },
        Tree::Paren(e) => {
            lemma_class_shape(*e);
            lemma_render_flat(*e, 0, true);
        },
        _ => {},
    }
}

/// Printing a tree of `+ - * /` over numbers (negative ones too) and `x` and
/// parsing the text gives the tree back, where each operand that binds less tightly than its
/// place asks for (the right operand of `-` or `/` included) stands in a
/// group, and no group stands at the top or directly inside another.
pub proof fn lemma_parse_render_round_trip(x: Tree)
    requires
        additive(x),
        !(x is Paren),
    ensures
        parse_spec(render(x, 0, true)) == x,
{
    lemma_class_shape(x);
    lemma_render_flat(x, 0, true);
    lemma_flat_no_ws(x);
    lemma_strip_no_ws(flat(x));
    let t = flat(x);
    assert(t.subrange(0, t.len() as int) == t);
    lemma_parse_sum(t, 0, x);
}

/// Such a tree, printed and parsed back, evaluates as the tree itself, at
/// every `x`.
pub proof fn lemma_round_trip_evaluates(
    x: Tree,
    v: Seq<char>,
    tabs: Seq<Tablet>,
    tricks: bool,
    d: nat,
    depth: nat,
)
    requires
        additive(x),
        !(x is Paren),
    ensures
        eval(parse_spec(render(x, 0, true)), v, tabs, tricks, d, depth) == eval(
            x,
            v,
            tabs,
            tricks,
            d,
            depth,
        ),
{
    lemma_parse_render_round_trip(x);
}

} // verus!
