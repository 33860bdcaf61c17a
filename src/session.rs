//! A session: function definitions `NAME(x)=expr`, one per line, then a
//! call `NAME(value)` whose result is reported as text.
use vstd::prelude::*;
use crate::decimal::{parsed_of, Config, Dec};
use crate::eval::{all_digits, apply_algebra_to_tree_node, find_tablet_index, eval, find_tablet, tablets_view, trim2, trim2_spec, EvalError};
use crate::math_trick::{first_index, lemma_first_index, lemma_no_index};
use crate::parser::{parse_expression, parse_spec};
use crate::text::{append_chars, chars_of, digits_value, is_digit, is_whitespace, is_ws, string_of_chars};
use crate::tree::{BinaryAlgebraicExpressionTree, Tablet};

verus! {

pub open spec fn trim_ws_end(s: Seq<char>) -> Seq<char>
    decreases s.len(),
{
    if s.len() > 0 && is_ws(s.last()) {
        trim_ws_end(s.drop_last())
    } else {
        s
    }
}

pub open spec fn trim_ws_start(s: Seq<char>) -> Seq<char>
    decreases s.len(),
{
    if s.len() > 0 && is_ws(s[0]) {
        trim_ws_start(s.drop_first())
    } else {
        s
    }
}

/// `s` without whitespace at either end.
pub open spec fn trim_ws(s: Seq<char>) -> Seq<char> {
    trim_ws_start(trim_ws_end(s))
}

/// The name and the expression of a definition `NAME(...)=expr`: the name
/// ends before the first `(`, the expression is what follows the first `=`.
pub open spec fn parse_function_spec(s: Seq<char>) -> Option<(Seq<char>, Seq<char>)> {
    let t = trim_ws(s);
    let e = first_index(t, '=');
    if e < 0 {
        None
    } else {
        let f = trim_ws(t.take(e));
        let p = first_index(f, '(');
        if p < 0 {
            None
        } else {
            Some((f.take(p), trim_ws(t.skip(e + 1))))
        }
    }
}

/// The name and the argument text of a call `NAME(value)`.
pub open spec fn parse_function_call_spec(s: Seq<char>) -> Option<(Seq<char>, Seq<char>)> {
    let o = first_index(s, '(');
    if s.len() == 0 || s.last() != ')' || o < 0 {
        None
    } else {
        Some((s.take(o), s.subrange(o + 1, s.len() - 1)))
    }
}

/// The tablet that a valid definition line makes.
pub open spec fn definition_tablet(l: Seq<char>) -> Tablet {
    let (n, e) = parse_function_spec(l)->0;
    Tablet { name: n, root: parse_spec(e) }
}

pub open spec fn session_tablets(defs: Seq<Seq<char>>) -> Seq<Tablet> {
    defs.map_values(|l: Seq<char>| definition_tablet(l))
}

/// The first definition from position `i` on that does not read, or -1.
pub open spec fn first_bad_definition(defs: Seq<Seq<char>>, i: int) -> int
    decreases defs.len() - i,
{
    if i < 0 || i >= defs.len() {
        -1
    } else if parse_function_spec(defs[i]) is None {
        i
    } else {
        first_bad_definition(defs, i + 1)
    }
}

/// The report of a session whose last line is the call and whose other lines
/// are definitions.
pub open spec fn run_spec(lines: Seq<Seq<char>>, tricks: bool, d: nat, depth: nat) -> Result<
    Seq<char>,
    EvalError,
> {
    let defs = lines.drop_last();
    let call = lines.last();
    let bad = first_bad_definition(defs, 0);
    if bad >= 0 {
        Ok("Invalid function definition: "@ + defs[bad])
    } else {
        let tabs = session_tablets(defs);
        match parse_function_call_spec(call) {
            None => Ok("Invalid function call: "@ + call),
            Some((name, input)) => {
                let i = find_tablet(tabs, name, 0);
                if i < 0 {
                    Ok("Function "@ + name + " not defined"@)
                } else {
                    match parsed_of(input) {
                        None => Ok("Invalid input value: "@ + input),
                        Some(x) => match eval(tabs[i].root, x, tabs, tricks, d, depth) {
                            Err(e) => Err(e),
                            Ok(None) => Ok("Undefined"@),
                            Ok(Some(v)) => Ok(trim2_spec(v)),
                        },
                    }
                }
            },
        }
    }
}

/// The first line of a session that sets its number of places.
pub open spec fn decimals_marker() -> Seq<char> {
    "decimals(x) ="@
}

/// The run of non-whitespace characters at the start of `s`.
pub open spec fn leading_token(s: Seq<char>) -> Seq<char>
    decreases s.len(),
{
    if s.len() == 0 || is_ws(s[0]) {
        Seq::empty()
    } else {
        seq![s[0]] + leading_token(s.drop_first())
    }
}

/// `s` without its leading `+`, if it has one.
pub open spec fn without_plus(s: Seq<char>) -> Seq<char> {
    if s.len() > 0 && s[0] == '+' {
        s.drop_first()
    } else {
        s
    }
}

/// The number that a text of digits (after an optional `+`) writes, if it fits in `usize`.
pub open spec fn usize_of(s: Seq<char>) -> Option<usize> {
    let u = without_plus(s);
    if u.len() > 0 && all_digits(u) && digits_value(u) <= usize::MAX {
        Some(digits_value(u) as usize)
    } else {
        None
    }
}

/// For a line that opens with the marker, the number of places written after
/// it (its first word), if that word is a number; `None` for another line.
pub open spec fn decimals_setting_spec(line: Seq<char>) -> Option<Option<usize>> {
    let t = trim_ws(line);
    let m = decimals_marker();
    if t.len() >= m.len() && t.take(m.len() as int) == m {
        Some(usize_of(leading_token(trim_ws_start(t.skip(m.len() as int)))))
    } else {
        None
    }
}

pub open spec fn lines_view(v: Seq<String>) -> Seq<Seq<char>> {
    v.map_values(|s: String| s@)
}

pub open spec fn pair_view(r: Option<(String, String)>) -> Option<(Seq<char>, Seq<char>)> {
    match r {
        Some((a, b)) => Some((a@, b@)),
        None => None,
    }
}

fn copy_range(v: &Vec<char>, lo: usize, hi: usize) -> (r: Vec<char>)
    requires
        lo <= hi <= v.len(),
    ensures
        r@ == v@.subrange(lo as int, hi as int),
{
    let mut r: Vec<char> = Vec::new();
    let mut i: usize = lo;
    while i < hi
        invariant
            lo <= i <= hi <= v.len(),
            r@ == v@.subrange(lo as int, i as int),
        decreases hi - i,
    {
        r.push(v[i]);
        i += 1;
        assert(v@.subrange(lo as int, i as int) == v@.subrange(lo as int, i - 1).push(v@[i - 1]));
    }
    r
}

fn trim_ws_chars(v: &Vec<char>) -> (r: Vec<char>)
    ensures
        r@ == trim_ws(v@),
{
    let mut hi: usize = v.len();
    assert(v@.take(hi as int) == v@);
    while hi > 0 && is_whitespace(v[hi - 1])
        invariant
            hi <= v.len(),
            trim_ws_end(v@) == trim_ws_end(v@.take(hi as int)),
        decreases hi,
    {
        assert(v@.take(hi as int).drop_last() == v@.take(hi - 1));
        hi -= 1;
    }
    let ghost u = v@.take(hi as int);
    let mut lo: usize = 0;
    assert(u.skip(0) == u);
    while lo < hi && is_whitespace(v[lo])
        invariant
            lo <= hi <= v.len(),
            u == v@.take(hi as int),
            trim_ws_start(u) == trim_ws_start(u.skip(lo as int)),
        decreases hi - lo,
    {
        assert(u.skip(lo as int).drop_first() == u.skip(lo + 1));
        lo += 1;
    }
    assert(u.skip(lo as int) == v@.subrange(lo as int, hi as int));
    copy_range(v, lo, hi)
}

fn find_char(v: &Vec<char>, c: char) -> (r: Option<usize>)
    ensures
        match r {
            Some(i) => first_index(v@, c) == i as int && i < v.len() && v@[i as int] == c,
            None => first_index(v@, c) == -1,
        },
{
    let mut i: usize = 0;
    while i < v.len()
        invariant
            i <= v.len(),
            forall|j: int| 0 <= j < i ==> v@[j] != c,
        decreases v.len() - i,
    {
        if v[i] == c {
            proof {
                lemma_first_index(v@, c, i as int);
            }
            return Some(i);
        }
        i += 1;
    }
    proof {
        lemma_no_index(v@, c);
    }
    None
}

/// Splits a definition `NAME(x)=expr` into its name and its expression.
pub fn parse_function(s: &str) -> (r: Option<(String, String)>)
    ensures
        pair_view(r) == parse_function_spec(s@),
{
    let t = trim_ws_chars(&chars_of(s));
    let e = match find_char(&t, '=') {
        Some(e) => e,
        None => return None,
    };
    let head = copy_range(&t, 0, e);
    assert(head@ == t@.take(e as int));
    let f = trim_ws_chars(&head);
    let p = match find_char(&f, '(') {
        Some(p) => p,
        None => return None,
    };
    let name = copy_range(&f, 0, p);
    let tail = copy_range(&t, e + 1, t.len());
    assert(tail@ == t@.skip(e + 1));
    let expr = trim_ws_chars(&tail);
    assert(name@ == f@.take(p as int));
    Some((string_of_chars(&name), string_of_chars(&expr)))
}

/// Splits a call `NAME(value)` into its name and its argument text.
pub fn parse_function_call(s: &str) -> (r: Option<(String, String)>)
    ensures
        pair_view(r) == parse_function_call_spec(s@),
{
    let v = chars_of(s);
    let o = find_char(&v, '(');
    if v.len() == 0 || v[v.len() - 1] != ')' {
        return None;
    }
    match o {
        None => None,
        Some(o) => {
            let name = copy_range(&v, 0, o);
            let input = copy_range(&v, o + 1, v.len() - 1);
            assert(name@ == v@.take(o as int));
            Some((string_of_chars(&name), string_of_chars(&input)))
        },
    }
}

fn parse_usize(s: &Vec<char>) -> (r: Option<usize>)
    ensures
        r == usize_of(s@),
{
    let start: usize = if s.len() > 0 && s[0] == '+' { 1 } else { 0 };
    let ghost u = without_plus(s@);
    assert(u == s@.skip(start as int));
    if s.len() == start {
        return None;
    }
    let mut acc: usize = 0;
    let mut i: usize = start;
    while i < s.len()
        invariant
            start <= i <= s.len(),
            u == s@.skip(start as int),
            u == without_plus(s@),
            forall|q: int| 0 <= q < i - start ==> is_digit(#[trigger] u[q]),
            acc as int == digits_value(u.take(i - start)),
        decreases s.len() - i,
    {
        let c = s[i];
        assert(u[i - start] == c);
        if !('0' <= c && c <= '9') {
            assert(!is_digit(u[i - start]));
            assert(!all_digits(u));
            return None;
        }
        assert(u.take(i - start + 1).drop_last() == u.take(i - start));
        assert(u.take(i - start + 1).last() == c);
        let dgt = (c as u32 - '0' as u32) as usize;
        if acc > (usize::MAX - dgt) / 10 {
            proof {
                lemma_digits_grow(u, (i - start + 1) as int);
            }
            return None;
        }
        acc = acc * 10 + dgt;
        i += 1;
    }
    assert(u.take(u.len() as int) == u);
    Some(acc)
}

/// A longer run of digits is worth at least as much as its beginning.
proof fn lemma_digits_grow(u: Seq<char>, k: int)
    requires
        0 <= k <= u.len(),
    ensures
        digits_value(u.take(k)) <= digits_value(u),
    decreases u.len() - k,
{
    if k < u.len() {
        lemma_digits_grow(u, k + 1);
        assert(u.take(k + 1).drop_last() == u.take(k));
    } else {
        assert(u.take(k) == u);
    }
}

fn leading_token_chars(s: &Vec<char>, from: usize) -> (r: Vec<char>)
    requires
        from <= s.len(),
    ensures
        r@ == leading_token(s@.skip(from as int)),
{
    let mut end: usize = from;
    while end < s.len() && !is_whitespace(s[end])
        invariant
            from <= end <= s.len(),
            leading_token(s@.skip(from as int)) == s@.subrange(from as int, end as int) + leading_token(
                s@.skip(end as int),
            ),
        decreases s.len() - end,
    {
        assert(s@.skip(end as int).drop_first() == s@.skip(end + 1));
        assert(s@.subrange(from as int, end + 1) == s@.subrange(from as int, end as int) + seq![s@[end as int]]);
        end += 1;
    }
    assert(s@.subrange(from as int, from as int) == Seq::<char>::empty());
    copy_range(s, from, end)
}

/// The number of places that a session's first line sets: `None` where the
/// line does not open with `decimals(x) =`, `Some(None)` where what follows
/// is no number.
pub fn decimals_setting(line: &str) -> (r: Option<Option<usize>>)
    ensures
        r == decimals_setting_spec(line@),
{
    let t = trim_ws_chars(&chars_of(line));
    let m = chars_of("decimals(x) =");
    if t.len() < m.len() {
        return None;
    }
    let mut i: usize = 0;
    while i < m.len()
        invariant
            i <= m.len() <= t.len(),
            m@ == decimals_marker(),
            t@ == trim_ws(line@),
            forall|j: int| 0 <= j < i ==> t@[j] == m@[j],
        decreases m.len() - i,
    {
        if t[i] != m[i] {
            assert(t@.take(m.len() as int)[i as int] != m@[i as int]);
            return None;
        }
        i += 1;
    }
    assert(t@.take(m.len() as int) =~= m@);
    let rest = copy_range(&t, m.len(), t.len());
    assert(rest@ == t@.skip(m.len() as int));
    let trimmed_rest = trim_start_chars(&rest);
    let token = leading_token_chars(&trimmed_rest, 0);
    assert(trimmed_rest@.skip(0) == trimmed_rest@);
    Some(parse_usize(&token))
}

fn trim_start_chars(v: &Vec<char>) -> (r: Vec<char>)
    ensures
        r@ == trim_ws_start(v@),
{
    let mut lo: usize = 0;
    assert(v@.skip(0) == v@);
    while lo < v.len() && is_whitespace(v[lo])
        invariant
            lo <= v.len(),
            trim_ws_start(v@) == trim_ws_start(v@.skip(lo as int)),
        decreases v.len() - lo,
    {
        assert(v@.skip(lo as int).drop_first() == v@.skip(lo + 1));
        lo += 1;
    }
    assert(v@.skip(lo as int) == v@.subrange(lo as int, v.len() as int));
    copy_range(v, lo, v.len())
}

fn join(a: &str, b: &Vec<char>) -> (r: String)
    ensures
        r@ == a@ + b@,
{
    let mut v = chars_of(a);
    append_chars(&mut v, b);
    string_of_chars(&v)
}

/// Runs a session: every line but the last defines a tablet, the last calls
/// one. The report is the result as shown by `trim2`, `Undefined` for a
/// domain failure, or a message naming what could not be read.
pub fn run_lines(lines: &Vec<String>, use_math_tricks: bool, cfg: &Config, depth: u64) -> (r: Result<
    String,
    EvalError,
>)
    requires
        lines.len() > 0,
    ensures
        match r {
            Ok(s) => run_spec(lines_view(lines@), use_math_tricks, cfg.decimal_places as nat, depth as nat)
                == Ok::<Seq<char>, EvalError>(s@),
            Err(e) => run_spec(lines_view(lines@), use_math_tricks, cfg.decimal_places as nat, depth as nat)
                == Err::<Seq<char>, EvalError>(e),
        },
{
    let ghost all = lines_view(lines@);
    let ghost defs = all.drop_last();
    let n = lines.len() - 1;
    let mut trees: Vec<BinaryAlgebraicExpressionTree> = Vec::new();
    let mut i: usize = 0;
    while i < n
        invariant
            n == lines.len() - 1,
            i <= n,
            all == lines_view(lines@),
            defs == all.drop_last(),
            defs.len() == n,
            tablets_view(trees@) == session_tablets(defs.take(i as int)),
            first_bad_definition(defs, 0) == first_bad_definition(defs, i as int),
        decreases n - i,
    {
        assert(defs[i as int] == lines@[i as int]@);
        match parse_function(lines[i].as_str()) {
            Some((name, expr)) => {
                let ghost before = trees@;
                let root = parse_expression(expr.as_str());
                trees.push(BinaryAlgebraicExpressionTree { name, root_node: root });
                assert(tablets_view(trees@) =~= tablets_view(before).push(trees@[i as int]@));
                assert(session_tablets(defs.take(i + 1)) =~= session_tablets(defs.take(i as int)).push(
                    definition_tablet(defs[i as int]),
                ));
            },
            None => {
                let line = chars_of(lines[i].as_str());
                return Ok(join("Invalid function definition: ", &line));
            },
        }
        i += 1;
    }
    assert(defs.take(n as int) == defs);
    let call = chars_of(lines[n].as_str());
    assert(call@ == all.last());
    match parse_function_call(lines[n].as_str()) {
        None => Ok(join("Invalid function call: ", &call)),
        Some((func_name, input_val)) => {
            let found = find_tablet_index(&trees, &func_name);
            if found.is_none() {
                let mut v = chars_of("Function ");
                append_chars(&mut v, &chars_of(func_name.as_str()));
                append_chars(&mut v, &chars_of(" not defined"));
                return Ok(string_of_chars(&v));
            }
            let k = found.unwrap();
            match Dec::parse(input_val.as_str()) {
                None => Ok(join("Invalid input value: ", &chars_of(input_val.as_str()))),
                Some(x) => {
                    match apply_algebra_to_tree_node(
                        &trees[k].root_node,
                        &x,
                        &trees,
                        use_math_tricks,
                        cfg,
                        depth,
                    ) {
                        Err(e) => Err(e),
                        Ok(None) => Ok(string_of_chars(&chars_of("Undefined"))),
                        Ok(Some(v)) => Ok(trim2(&v)),
                    }
                },
            }
        },
    }
}

} // verus!
