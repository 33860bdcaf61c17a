//! The tree-walking evaluator.
//!
//! A tree is evaluated against a value of `x` and a list of tablets (named
//! trees that calls resolve to). The outcome is a number, a domain failure
//! (`Ok(None)`: division by zero, a power without a value), or an error that
//! ends the evaluation. Each call of a tablet uses one unit of `depth`, so
//! that tablets that call each other without end run out instead.
use vstd::prelude::*;
use crate::decimal::{
    dec_add, dec_div, dec_lt, dec_mul, dec_powi, dec_sqrt, dec_sub, difference_of, is_negative,
    is_zero, magnitude, mantissa, parsed_of, MAX_EXPONENT, MAX_POWER_BASE_LEN, power_of, product_of, quotient_of, root_of, sum_of,
    Config, Dec,
};
use crate::math_trick::{abs_spec, floor1_spec, ge0_spec, is0_spec, left_spec};
use crate::text::{contains_char, is_digit, string_of_chars, trim_zeros_chars, trim_zeros_spec};
use crate::tree::{size, BinaryAlgebraicExpressionTree, Tablet, Tree, TreeNode};

verus! {

/// Why an evaluation stopped without a result.
#[derive(PartialEq, Eq, Structural, Debug, Clone, Copy)]
pub enum EvalError {
    /// An operator other than `+ - * / ^`.
    UnknownOperator,
    /// A call of a name that no tablet carries.
    UnknownFunction,
    /// A variable other than `x` that is no number either.
    UnexpectedVariable,
    /// A number literal that does not read as a number.
    InvalidLiteral,
    /// A primitive answered `NaN` where a number was needed.
    NotANumber,
    /// A power whose exponent is fractional (other than `0.5`) or beyond
    /// `MAX_EXPONENT`, or whose base is longer than `MAX_POWER_BASE_LEN`.
    UnsupportedPower,
    /// Tablet calls nested deeper than the depth allowed.
    DepthExceeded,
}

pub type Outcome = Result<Option<Seq<char>>, EvalError>;

/// The decimal text as it is shown: no trailing fractional zeros, and `0`
/// for `-0`.
pub open spec fn trim2_spec(s: Seq<char>) -> Seq<char> {
    let t = trim_zeros_spec(s);
    if t == seq!['-', '0'] {
        seq!['0']
    } else {
        t
    }
}

/// `t` without its leading `-`, if it has one.
pub open spec fn unsigned_part(t: Seq<char>) -> Seq<char> {
    if t.len() > 0 && t[0] == '-' {
        t.drop_first()
    } else {
        t
    }
}

pub open spec fn all_digits(u: Seq<char>) -> bool {
    forall|i: int| 0 <= i < u.len() ==> is_digit(#[trigger] u[i])
}

/// The integer that a text of digits, optionally negative, writes, if it fits in `i64`.
pub open spec fn exponent_of(t: Seq<char>) -> Option<i64> {
    let neg = t.len() > 0 && t[0] == '-';
    let u = unsigned_part(t);
    if u.len() > 0 && all_digits(u) && magnitude(u) <= i64::MAX {
        Some(
            if neg {
                -(magnitude(u) as int)
            } else {
                magnitude(u) as int
            } as i64,
        )
    } else {
        None
    }
}

/// `a` to the power `b`, where neither a zero base with a non-positive
/// exponent nor a negative base with a fractional exponent is asked for.
pub open spec fn pow_spec(a: Seq<char>, b: Seq<char>) -> Outcome {
    let ta = trim2_spec(a);
    let tb = trim2_spec(b);
    if ta == seq!['0'] || ta == seq!['1'] {
        Ok(Some(a))
    } else if tb == seq!['0', '.', '5'] {
        if mantissa(a) < 0 {
            Ok(None)
        } else {
            Ok(Some(root_of(a)))
        }
    } else if tb.contains('.') {
        Err(EvalError::UnsupportedPower)
    } else {
        match exponent_of(tb) {
            Some(n) => if -MAX_EXPONENT <= n <= MAX_EXPONENT && a.len() <= MAX_POWER_BASE_LEN {
                Ok(Some(power_of(a, n as int)))
            } else {
                Err(EvalError::UnsupportedPower)
            },
            None => Err(EvalError::UnsupportedPower),
        }
    }
}

/// One operator applied to two numbers.
pub open spec fn combine_spec(op: char, a: Seq<char>, b: Seq<char>) -> Outcome {
    if op == '+' {
        Ok(Some(sum_of(a, b)))
    } else if op == '-' {
        Ok(Some(difference_of(a, b)))
    } else if op == '*' {
        Ok(Some(product_of(a, b)))
    } else if op == '/' {
        if mantissa(b) == 0 {
            Ok(None)
        } else {
            Ok(Some(quotient_of(a, b)))
        }
    } else if op == '^' {
        if (mantissa(a) == 0 && mantissa(b) <= 0) || (mantissa(a) < 0 && trim2_spec(b).contains(
            '.',
        )) {
            Ok(None)
        } else {
            pow_spec(a, b)
        }
    } else {
        Err(EvalError::UnknownOperator)
    }
}

/// What a primitive answers for `w`, where `name` is one.
pub open spec fn trick_text(name: Seq<char>, w: Seq<char>, d: nat) -> Option<Seq<char>> {
    if name == seq!['a', 'b', 's'] {
        Some(abs_spec(w))
    } else if name == seq!['g', 'e', '0'] {
        Some(ge0_spec(w, d))
    } else if name == seq!['i', 's', '0'] {
        Some(is0_spec(w, d))
    } else if name == seq!['f', 'l', 'o', 'o', 'r', '1'] {
        Some(floor1_spec(w, d))
    } else if name == seq!['l', 'e', 'f', 't'] {
        Some(left_spec(w, d))
    } else {
        None
    }
}

/// The first tablet from position `i` on whose name is `name`, or -1.
pub open spec fn find_tablet(tabs: Seq<Tablet>, name: Seq<char>, i: int) -> int
    decreases tabs.len() - i,
{
    if i < 0 || i >= tabs.len() {
        -1
    } else if tabs[i].name == name {
        i
    } else {
        find_tablet(tabs, name, i + 1)
    }
}

/// The value of the tree `t` at `x`.
pub open spec fn eval(
    t: Tree,
    x: Seq<char>,
    tabs: Seq<Tablet>,
    tricks: bool,
    d: nat,
    depth: nat,
) -> Outcome
    decreases depth, size(t), 0nat,
{
    match t {
        Tree::Num(s) => match parsed_of(s) {
            Some(v) => Ok(Some(v)),
            None => Err(EvalError::InvalidLiteral),
        },
        Tree::Var(s) => if s == seq!['x'] {
            Ok(Some(x))
        } else {
            match parsed_of(s) {
                Some(v) => Ok(Some(v)),
                None => Err(EvalError::UnexpectedVariable),
            }
        },
        Tree::Fun(name, k, a) => match eval(*a, x, tabs, tricks, d, depth) {
            Ok(Some(v)) => apply_n(name, k as nat, v, tabs, tricks, d, depth),
            other => other,
        },
        Tree::Op(op, l, r) => match eval(*l, x, tabs, tricks, d, depth) {
            Err(e) => Err(e),
            Ok(lv) => match eval(*r, x, tabs, tricks, d, depth) {
                Err(e) => Err(e),
                Ok(rv) => match (lv, rv) {
                    (Some(a), Some(b)) => combine_spec(op, a, b),
                    _ => Ok(None),
                },
            },
        },
        Tree::Paren(e) => eval(*e, x, tabs, tricks, d, depth),
        Tree::Empty => Ok(Some(seq!['0'])),
    }
}

/// The function `name` applied once to `w`: a primitive where `tricks` is
/// set and `name` is one, else the first tablet called `name`.
pub open spec fn apply_once(
    name: Seq<char>,
    w: Seq<char>,
    tabs: Seq<Tablet>,
    tricks: bool,
    d: nat,
    depth: nat,
) -> Outcome
    decreases depth, 0nat, 0nat,
{
    if tricks && trick_text(name, w, d) is Some {
        match parsed_of(trick_text(name, w, d)->0) {
            Some(u) => Ok(Some(u)),
            None => Err(EvalError::NotANumber),
        }
    } else {
        let i = find_tablet(tabs, name, 0);
        if i < 0 {
            Err(EvalError::UnknownFunction)
        } else if depth == 0 {
            Err(EvalError::DepthExceeded)
        } else {
            eval(tabs[i].root, w, tabs, tricks, d, (depth - 1) as nat)
        }
    }
}

/// The function `name` applied `k` times in a row, starting from `v`.
pub open spec fn apply_n(
    name: Seq<char>,
    k: nat,
    v: Seq<char>,
    tabs: Seq<Tablet>,
    tricks: bool,
    d: nat,
    depth: nat,
) -> Outcome
    decreases depth, 0nat, k,
{
    if k == 0 {
        Ok(Some(v))
    } else {
        match apply_n(name, (k - 1) as nat, v, tabs, tricks, d, depth) {
            Ok(Some(w)) => apply_once(name, w, tabs, tricks, d, depth),
            other => other,
        }
    }
}

/// The models of a list of tablets.
pub open spec fn tablets_view(v: Seq<BinaryAlgebraicExpressionTree>) -> Seq<Tablet> {
    v.map_values(|t: BinaryAlgebraicExpressionTree| t@)
}

pub open spec fn outcome(r: Result<Option<Dec>, EvalError>) -> Outcome {
    match r {
        Ok(Some(v)) => Ok(Some(v@)),
        Ok(None) => Ok(None),
        Err(e) => Err(e),
    }
}

/// The text of `dec` as it is shown: trailing fractional zeros removed, and
/// `0` for `-0`.
pub fn trim2(dec: &Dec) -> (r: String)
    ensures
        r@ == trim2_spec(dec@),
{
    let mut v = dec.chars();
    trim_zeros_chars(&mut v);
    if v.len() == 2 && v[0] == '-' && v[1] == '0' {
        assert(v@ =~= seq!['-', '0']);
        v.remove(0);
        assert(v@ =~= seq!['0']);
    } else {
        assert(v@ != seq!['-', '0']);
    }
    string_of_chars(&v)
}

fn exponent_value(t: &Vec<char>) -> (r: Option<i64>)
    ensures
        r == exponent_of(t@),
{
    let neg = t.len() > 0 && t[0] == '-';
    let start: usize = if neg { 1 } else { 0 };
    let ghost u = unsigned_part(t@);
    assert(u == t@.skip(start as int));
    let mut acc: u64 = 0;
    let mut over = false;
    let mut i: usize = start;
    while i < t.len()
        invariant
            start <= i <= t.len(),
            u == t@.skip(start as int),
            u == unsigned_part(t@),
            forall|q: int| 0 <= q < i - start ==> is_digit(#[trigger] u[q]),
            !over ==> acc as int == magnitude(u.take(i - start)) && acc <= i64::MAX,
            over ==> magnitude(u.take(i - start)) > i64::MAX,
        decreases t.len() - i,
    {
        let c = t[i];
        if !('0' <= c && c <= '9') {
            assert(u[(i - start) as int] == t@[i as int]);
            assert(!is_digit(u[i - start]));
            assert(0 <= i - start < u.len());
            assert(!all_digits(u));
            return None;
        }
        let ghost pre = u.take(i - start);
        assert(u.take(i - start + 1).drop_last() == pre);
        assert(u.take(i - start + 1).last() == c);
        let dgt = (c as u32 - '0' as u32) as u64;
        if !over {
            if acc > (i64::MAX as u64 - dgt) / 10 {
                over = true;
            } else {
                acc = acc * 10 + dgt;
            }
        }
        i += 1;
    }
    assert(u.take(u.len() as int) == u);
    if t.len() == start || over {
        None
    } else if neg {
        Some(-(acc as i64))
    } else {
        Some(acc as i64)
    }
}

fn is_chars(v: &Vec<char>, a: char, b: char, c: char) -> (r: bool)
    ensures
        r == (v@ == seq![a, b, c]),
{
    if v.len() == 3 && v[0] == a && v[1] == b && v[2] == c {
        assert(v@ =~= seq![a, b, c]);
        true
    } else {
        false
    }
}

/// `a` to the power `b`; `Ok(None)` for the square root of a negative number.
pub fn pow(a: &Dec, b: &Dec) -> (r: Result<Option<Dec>, EvalError>)
    ensures
        outcome(r) == pow_spec(a@, b@),
{
    let ta = crate::text::chars_of(trim2(a).as_str());
    let tb = crate::text::chars_of(trim2(b).as_str());
    if (ta.len() == 1 && ta[0] == '0') || (ta.len() == 1 && ta[0] == '1') {
        assert(ta@ == seq!['0'] || ta@ == seq!['1']);
        return Ok(Some(a.clone()));
    }
    assert(ta@ != seq!['0'] && ta@ != seq!['1']);
    if is_chars(&tb, '0', '.', '5') {
        return match dec_sqrt(a) {
            Some(v) => Ok(Some(v)),
            None => Ok(None),
        };
    }
    if contains_char(&tb, '.') {
        return Err(EvalError::UnsupportedPower);
    }
    match exponent_value(&tb) {
        Some(n) => {
            let base_len = a.chars().len();
            if -MAX_EXPONENT <= n && n <= MAX_EXPONENT && base_len <= MAX_POWER_BASE_LEN {
                Ok(Some(dec_powi(a, n)))
            } else {
                Err(EvalError::UnsupportedPower)
            }
        },
        None => Err(EvalError::UnsupportedPower),
    }
}

fn combine(op: char, a: &Dec, b: &Dec) -> (r: Result<Option<Dec>, EvalError>)
    ensures
        outcome(r) == combine_spec(op, a@, b@),
{
    if op == '+' {
        Ok(Some(dec_add(a, b)))
    } else if op == '-' {
        Ok(Some(dec_sub(a, b)))
    } else if op == '*' {
        Ok(Some(dec_mul(a, b)))
    } else if op == '/' {
        if is_zero(b) {
            Ok(None)
        } else {
            Ok(Some(dec_div(a, b)))
        }
    } else if op == '^' {
        let tb = crate::text::chars_of(trim2(b).as_str());
        if (is_zero(a) && (is_negative(b) || is_zero(b))) || (is_negative(a) && contains_char(
            &tb,
            '.',
        )) {
            Ok(None)
        } else {
            pow(a, b)
        }
    } else {
        Err(EvalError::UnknownOperator)
    }
}

fn name_is(v: &Vec<char>, lit: &Vec<char>) -> (r: bool)
    ensures
        r == (v@ == lit@),
{
    if v.len() != lit.len() {
        return false;
    }
    let mut i: usize = 0;
    while i < v.len()
        invariant
            v.len() == lit.len(),
            i <= v.len(),
            forall|j: int| 0 <= j < i ==> v@[j] == lit@[j],
        decreases v.len() - i,
    {
        if v[i] != lit[i] {
            return false;
        }
        i += 1;
    }
    assert(v@ =~= lit@);
    true
}

fn run_trick(name: &String, w: &Dec, cfg: &Config) -> (r: Option<String>)
    ensures
        match r {
            Some(s) => trick_text(name@, w@, cfg.decimal_places as nat) == Some(s@),
            None => trick_text(name@, w@, cfg.decimal_places as nat) is None,
        },
{
    let n = crate::text::chars_of(name.as_str());
    let mut abs_n: Vec<char> = Vec::new();
    abs_n.push('a');
    abs_n.push('b');
    abs_n.push('s');
    let mut ge0_n: Vec<char> = Vec::new();
    ge0_n.push('g');
    ge0_n.push('e');
    ge0_n.push('0');
    let mut is0_n: Vec<char> = Vec::new();
    is0_n.push('i');
    is0_n.push('s');
    is0_n.push('0');
    let mut floor1_n: Vec<char> = Vec::new();
    floor1_n.push('f');
    floor1_n.push('l');
    floor1_n.push('o');
    floor1_n.push('o');
    floor1_n.push('r');
    floor1_n.push('1');
    let mut left_n: Vec<char> = Vec::new();
    left_n.push('l');
    left_n.push('e');
    left_n.push('f');
    left_n.push('t');
    assert(abs_n@ =~= seq!['a', 'b', 's']);
    assert(ge0_n@ =~= seq!['g', 'e', '0']);
    assert(is0_n@ =~= seq!['i', 's', '0']);
    assert(floor1_n@ =~= seq!['f', 'l', 'o', 'o', 'r', '1']);
    assert(left_n@ =~= seq!['l', 'e', 'f', 't']);
    if name_is(&n, &abs_n) {
        Some(crate::math_trick::abs(w))
    } else if name_is(&n, &ge0_n) {
        Some(crate::math_trick::ge0(w, cfg))
    } else if name_is(&n, &is0_n) {
        Some(crate::math_trick::is0(w, cfg))
    } else if name_is(&n, &floor1_n) {
        Some(crate::math_trick::floor1(w, cfg))
    } else if name_is(&n, &left_n) {
        Some(crate::math_trick::left(w, cfg))
    } else {
        None
    }
}

pub(crate) fn find_tablet_index(tablets: &Vec<BinaryAlgebraicExpressionTree>, name: &String) -> (r: Option<usize>)
    ensures
        match r {
            Some(i) => find_tablet(tablets_view(tablets@), name@, 0) == i as int && i < tablets.len()
                && tablets_view(tablets@)[i as int] == tablets@[i as int]@,
            None => find_tablet(tablets_view(tablets@), name@, 0) == -1,
        },
{
    let mut i: usize = 0;
    while i < tablets.len()
        invariant
            i <= tablets.len(),
            find_tablet(tablets_view(tablets@), name@, 0) == find_tablet(tablets_view(tablets@), name@, i as int),
        decreases tablets.len() - i,
    {
        if tablets[i].name == *name {
            return Some(i);
        }
        i += 1;
    }
    None
}

fn apply_function_once(
    name: &String,
    w: &Dec,
    tablets: &Vec<BinaryAlgebraicExpressionTree>,
    use_math_tricks: bool,
    cfg: &Config,
    depth: u64,
) -> (r: Result<Option<Dec>, EvalError>)
    ensures
        outcome(r) == apply_once(
            name@,
            w@,
            tablets_view(tablets@),
            use_math_tricks,
            cfg.decimal_places as nat,
            depth as nat,
        ),
    decreases depth, 0nat, 0nat,
{
    if use_math_tricks {
        if let Some(t) = run_trick(name, w, cfg) {
            return match Dec::parse(t.as_str()) {
                Some(u) => Ok(Some(u)),
                None => Err(EvalError::NotANumber),
            };
        }
    }
    match find_tablet_index(tablets, name) {
        None => Err(EvalError::UnknownFunction),
        Some(i) => {
            if depth == 0 {
                Err(EvalError::DepthExceeded)
            } else {
                apply_algebra_to_tree_node(
                    &tablets[i].root_node,
                    w,
                    tablets,
                    use_math_tricks,
                    cfg,
                    depth - 1,
                )
            }
        },
    }
}

/// Once the repeated application has stopped with no number, it stays stopped.
proof fn lemma_apply_stuck(
    name: Seq<char>,
    i: nat,
    k: nat,
    v: Seq<char>,
    tabs: Seq<Tablet>,
    tricks: bool,
    d: nat,
    depth: nat,
)
    requires
        i <= k,
        !(apply_n(name, i, v, tabs, tricks, d, depth) is Ok && apply_n(
            name,
            i,
            v,
            tabs,
            tricks,
            d,
            depth,
        )->Ok_0 is Some),
    ensures
        apply_n(name, k, v, tabs, tricks, d, depth) == apply_n(name, i, v, tabs, tricks, d, depth),
    decreases k,
{
    if i < k {
        lemma_apply_stuck(name, i, (k - 1) as nat, v, tabs, tricks, d, depth);
    }
}

/// Evaluates the tree `node` at `x`, resolving calls against `tablets`
/// (and against the primitives where `use_math_tricks` is set), with tablet
/// calls nested at most `depth` deep.
pub fn apply_algebra_to_tree_node(
    node: &TreeNode,
    x: &Dec,
    tablets: &Vec<BinaryAlgebraicExpressionTree>,
    use_math_tricks: bool,
    cfg: &Config,
    depth: u64,
) -> (r: Result<Option<Dec>, EvalError>)
    ensures
        outcome(r) == eval(
            node@,
            x@,
            tablets_view(tablets@),
            use_math_tricks,
            cfg.decimal_places as nat,
            depth as nat,
        ),
    decreases depth, size(node@), 0nat,
{
    match node {
        TreeNode::Num(s) => match Dec::parse(s.as_str()) {
            Some(v) => Ok(Some(v)),
            None => Err(EvalError::InvalidLiteral),
        },
        TreeNode::Var(s) => {
            let sv = crate::text::chars_of(s.as_str());
            if sv.len() == 1 && sv[0] == 'x' {
                assert(sv@ =~= seq!['x']);
                Ok(Some(x.clone()))
            } else {
                assert(sv@ != seq!['x']);
                match Dec::parse(s.as_str()) {
                    Some(v) => Ok(Some(v)),
                    None => Err(EvalError::UnexpectedVariable),
                }
            }
        },
        TreeNode::Fun(name, k, arg) => {
            let v0 = match apply_algebra_to_tree_node(arg, x, tablets, use_math_tricks, cfg, depth) {
                Ok(Some(v)) => v,
                Ok(None) => return Ok(None),
                Err(e) => return Err(e),
            };
            let ghost d = cfg.decimal_places as nat;
            assert(eval(node@, x@, tablets_view(tablets@), use_math_tricks, d, depth as nat) == apply_n(
                name@,
                *k as nat,
                v0@,
                tablets_view(tablets@),
                use_math_tricks,
                d,
                depth as nat,
            ));
            let mut cur = v0.clone();
            let mut i: usize = 0;
            while i < *k
                invariant
                    i <= *k,
                    apply_n(name@, i as nat, v0@, tablets_view(tablets@), use_math_tricks, d, depth as nat) == Ok::<
                        Option<Seq<char>>,
                        EvalError,
                    >(Some(cur@)),
                    d == cfg.decimal_places as nat,
                    eval(node@, x@, tablets_view(tablets@), use_math_tricks, d, depth as nat) == apply_n(
                        name@,
                        *k as nat,
                        v0@,
                        tablets_view(tablets@),
                        use_math_tricks,
                        d,
                        depth as nat,
                    ),
                decreases *k - i,
            {
                let next = apply_function_once(name, &cur, tablets, use_math_tricks, cfg, depth);
                match next {
                    Ok(Some(w)) => {
                        cur = w;
                    },
                    other => {
                        proof {
                            lemma_apply_stuck(
                                name@,
                                (i + 1) as nat,
                                *k as nat,
                                v0@,
                                tablets_view(tablets@),
                                use_math_tricks,
                                d,
                                depth as nat,
                            );
                        }
                        return other;
                    },
                }
                i += 1;
            }
            Ok(Some(cur))
        },
        TreeNode::Op(op, l, r) => {
            let lv = match apply_algebra_to_tree_node(l, x, tablets, use_math_tricks, cfg, depth) {
                Ok(v) => v,
                Err(e) => return Err(e),
            };
            let rv = match apply_algebra_to_tree_node(r, x, tablets, use_math_tricks, cfg, depth) {
                Ok(v) => v,
                Err(e) => return Err(e),
            };
            match (lv, rv) {
                (Some(a), Some(b)) => combine(*op, &a, &b),
                _ => Ok(None),
            }
        },
        TreeNode::Paren(e) => apply_algebra_to_tree_node(e, x, tablets, use_math_tricks, cfg, depth),
        TreeNode::Empty => Ok(Some(crate::decimal::zero())),
    }
}

} // verus!
