//! Recursive-descent parser from text to `TreeNode`.
//!
//! The grammar, tightest binding last:
//!   additive       := multiplicative (('+' | '-') multiplicative)*
//!   multiplicative := power (('*' | '/') power)*
//!   power          := unary ('^' unary)*
//!   unary          := '+' unary | '-' number | '-' unary | atomic
//!   atomic         := '(' additive ')' | number | name ['^' '[' digits ']'] ['(' additive ')']
//! A name without an argument list is a variable; evaluation reads any
//! name but `x` as a number. The parser never fails: what it cannot read
//! becomes `Empty`.
use vstd::prelude::*;
use crate::text::{
    chars_of, digits_value, is_ascii_letter, is_digit, is_name_char, name_char, remove_whitespace,
    string_of_chars, strip_ws,
};
use crate::tree::{Tree, TreeNode};

verus! {

/// How many characters are left from position `i` on.
pub open spec fn rem(t: Seq<char>, i: int) -> nat {
    if 0 <= i < t.len() {
        (t.len() - i) as nat
    } else {
        0
    }
}

/// End of the run of digits that starts at `i`.
pub open spec fn digit_run_end(t: Seq<char>, i: int) -> int
    decreases rem(t, i),
{
    if 0 <= i < t.len() && is_digit(t[i]) {
        digit_run_end(t, i + 1)
    } else {
        i
    }
}

/// End of the run of name characters that starts at `i`.
pub open spec fn name_end(t: Seq<char>, i: int) -> int
    decreases rem(t, i),
{
    if 0 <= i < t.len() && is_name_char(t[i]) {
        name_end(t, i + 1)
    } else {
        i
    }
}

/// End of a number literal at `i`: digits, then optionally `.` and digits.
pub open spec fn number_end(t: Seq<char>, i: int) -> int {
    let j = digit_run_end(t, i);
    if 0 <= j < t.len() && t[j] == '.' {
        digit_run_end(t, j + 1)
    } else {
        j
    }
}

/// The repeat count written by `digits`: its value, or 1 where it is empty
/// or does not fit in `usize`.
pub open spec fn repeat_count(digits: Seq<char>) -> usize {
    if digits.len() > 0 && digits_value(digits) <= usize::MAX {
        digits_value(digits) as usize
    } else {
        1
    }
}

/// The optional `^[n]` after a function name at `j`: the count and where it ends.
/// A suffix that is not closed by `]` is not read at all.
pub open spec fn repeat_suffix(t: Seq<char>, j: int) -> (usize, int) {
    if 0 <= j && j + 1 < t.len() && t[j] == '^' && t[j + 1] == '[' {
        let k = digit_run_end(t, j + 2);
        if 0 <= k < t.len() && t[k] == ']' {
            (repeat_count(t.subrange(j + 2, k)), k + 1)
        } else {
            (1, j)
        }
    } else {
        (1, j)
    }
}

/// Skips one closing parenthesis at `k`, if there is one.
pub open spec fn skip_close(t: Seq<char>, k: int) -> int {
    if 0 <= k < t.len() && t[k] == ')' {
        k + 1
    } else {
        k
    }
}

/// The tree of the `additive` rule at `i`, and where it ends.
pub open spec fn p_additive(t: Seq<char>, i: int) -> (Tree, int)
    decreases rem(t, i), 9nat,
{
    let (l, j) = p_multiplicative(t, i);
    if 0 <= i <= j <= t.len() {
        additive_rest(t, j, l)
    } else {
        (l, j)
    }
}

/// The loop of the `additive` rule: left-associative `+` and `-`.
pub open spec fn additive_rest(t: Seq<char>, j: int, l: Tree) -> (Tree, int)
    decreases rem(t, j), 8nat,
{
    if 0 <= j < t.len() && (t[j] == '+' || t[j] == '-') {
        let (r, k) = p_multiplicative(t, j + 1);
        let node = Tree::Op(t[j], Box::new(l), Box::new(r));
        if j + 1 <= k <= t.len() {
            additive_rest(t, k, node)
        } else {
            (node, k)
        }
    } else {
        (l, j)
    }
}

pub open spec fn p_multiplicative(t: Seq<char>, i: int) -> (Tree, int)
    decreases rem(t, i), 7nat,
{
    let (l, j) = p_power(t, i);
    if 0 <= i <= j <= t.len() {
        multiplicative_rest(t, j, l)
    } else {
        (l, j)
    }
}

/// The loop of the `multiplicative` rule: left-associative `*` and `/`.
pub open spec fn multiplicative_rest(t: Seq<char>, j: int, l: Tree) -> (Tree, int)
    decreases rem(t, j), 6nat,
{
    if 0 <= j < t.len() && (t[j] == '*' || t[j] == '/') {
        let (r, k) = p_power(t, j + 1);
        let node = Tree::Op(t[j], Box::new(l), Box::new(r));
        if j + 1 <= k <= t.len() {
            multiplicative_rest(t, k, node)
        } else {
            (node, k)
        }
    } else {
        (l, j)
    }
}

pub open spec fn p_power(t: Seq<char>, i: int) -> (Tree, int)
    decreases rem(t, i), 5nat,
{
    let (l, j) = p_unary(t, i);
    if 0 <= i <= j <= t.len() {
        power_rest(t, j, l)
    } else {
        (l, j)
    }
}

/// The loop of the `power` rule: `^` folded to the left while parsing.
pub open spec fn power_rest(t: Seq<char>, j: int, l: Tree) -> (Tree, int)
    decreases rem(t, j), 4nat,
{
    if 0 <= j < t.len() && t[j] == '^' {
        let (r, k) = p_unary(t, j + 1);
        let node = Tree::Op('^', Box::new(l), Box::new(r));
        if j + 1 <= k <= t.len() {
            power_rest(t, k, node)
        } else {
            (node, k)
        }
    } else {
        (l, j)
    }
}

pub open spec fn p_unary(t: Seq<char>, i: int) -> (Tree, int)
    decreases rem(t, i), 3nat,
{
    if !(0 <= i < t.len()) {
        (Tree::Empty, i)
    } else if t[i] == '+' {
        p_unary(t, i + 1)
    } else if t[i] == '-' {
        if i + 1 < t.len() && (is_digit(t[i + 1]) || t[i + 1] == '.') {
            let e = number_end(t, i + 1);
            (Tree::Num(seq!['-'] + t.subrange(i + 1, e)), e)
        } else {
            let (r, k) = p_unary(t, i + 1);
            (Tree::Op('-', Box::new(Tree::Num(seq!['0'])), Box::new(r)), k)
        }
    } else {
        p_atomic(t, i)
    }
}

pub open spec fn p_atomic(t: Seq<char>, i: int) -> (Tree, int)
    decreases rem(t, i), 2nat,
{
    if !(0 <= i < t.len()) {
        (Tree::Empty, i)
    } else if t[i] == '(' {
        let (e, k) = p_additive(t, i + 1);
        (Tree::Paren(Box::new(e)), skip_close(t, k))
    } else if is_digit(t[i]) {
        let e = number_end(t, i);
        (Tree::Num(t.subrange(i, e)), e)
    } else if is_ascii_letter(t[i]) {
        let n = name_end(t, i);
        let (count, s) = repeat_suffix(t, n);
        if i <= s < t.len() && t[s] == '(' {
            let (a, k) = p_additive(t, s + 1);
            (Tree::Fun(t.subrange(i, n), count, Box::new(a)), skip_close(t, k))
        } else {
            (Tree::Var(t.subrange(i, n)), s)
        }
    } else {
        (Tree::Empty, i + 1)
    }
}

/// The tree that `parse_expression` builds from `s`.
pub open spec fn parse_spec(s: Seq<char>) -> Tree {
    p_additive(strip_ws(s), 0).0
}

/// Converts a string like `3*x+5` to an expression tree.
pub fn parse_expression(s: &str) -> (r: TreeNode)
    ensures
        r@ == parse_spec(s@),
{
    let chars = chars_of(s);
    let tokens = remove_whitespace(&chars);
    let mut index: usize = 0;
    parse_additive(&tokens, &mut index)
}

/// Moves `index` over a run of digits, copying them to `buf`.
fn scan_digits(tokens: &Vec<char>, index: &mut usize, buf: &mut Vec<char>)
    requires
        *old(index) <= tokens.len(),
    ensures
        *final(index) as int == digit_run_end(tokens@, *old(index) as int),
        *old(index) <= *final(index) <= tokens.len(),
        final(buf)@ == old(buf)@ + tokens@.subrange(*old(index) as int, *final(index) as int),
{
    let ghost i0 = *index as int;
    let mut k: usize = *index;
    while k < tokens.len() && tokens[k] >= '0' && tokens[k] <= '9'
        invariant
            0 <= i0 <= k <= tokens.len(),
            digit_run_end(tokens@, i0) == digit_run_end(tokens@, k as int),
            buf@ == old(buf)@ + tokens@.subrange(i0, k as int),
        decreases tokens.len() - k,
    {
        buf.push(tokens[k]);
        k += 1;
        assert(tokens@.subrange(i0, k as int) == tokens@.subrange(i0, k - 1).push(tokens@[k - 1]));
    }
    *index = k;
}

/// Moves `index` over a number literal, copying it to `buf`.
fn scan_number(tokens: &Vec<char>, index: &mut usize, buf: &mut Vec<char>)
    requires
        *old(index) <= tokens.len(),
    ensures
        *final(index) as int == number_end(tokens@, *old(index) as int),
        *old(index) <= *final(index) <= tokens.len(),
        final(buf)@ == old(buf)@ + tokens@.subrange(*old(index) as int, *final(index) as int),
{
    let ghost i0 = *index as int;
    scan_digits(tokens, index, buf);
    if *index < tokens.len() && tokens[*index] == '.' {
        buf.push('.');
        *index += 1;
        let ghost b1 = buf@;
        let ghost i1 = *index as int;
        scan_digits(tokens, index, buf);
        assert(tokens@.subrange(i0, *index as int) == tokens@.subrange(i0, i1) + tokens@.subrange(
            i1,
            *index as int,
        ));
        assert(tokens@.subrange(i0, i1) == tokens@.subrange(i0, i1 - 1).push('.'));
    }
}

/// The repeat count written by `digits`, as `repeat_count` states it.
fn parse_count(digits: &Vec<char>) -> (r: usize)
    requires
        forall|k: int| 0 <= k < digits.len() ==> is_digit(#[trigger] digits@[k]),
    ensures
        r == repeat_count(digits@),
{
    let mut v: usize = 0;
    let mut over = false;
    let mut k: usize = 0;
    while k < digits.len()
        invariant
            k <= digits.len(),
            forall|q: int| 0 <= q < digits.len() ==> is_digit(#[trigger] digits@[q]),
            !over ==> v == digits_value(digits@.subrange(0, k as int)),
            over ==> digits_value(digits@.subrange(0, k as int)) > usize::MAX,
        decreases digits.len() - k,
    {
        let ghost pre = digits@.subrange(0, k as int);
        assert(digits@.subrange(0, k as int + 1).drop_last() == pre);
        assert(digits@.subrange(0, k as int + 1).last() == digits@[k as int]);
        let d = (digits[k] as u32 - '0' as u32) as usize;
        if !over {
            if v > (usize::MAX - d) / 10 {
                over = true;
            } else {
                v = v * 10 + d;
            }
        }
        k += 1;
    }
    assert(digits@.subrange(0, digits.len() as int) == digits@);
    if over || digits.len() == 0 {
        1
    } else {
        v
    }
}

pub(crate) fn make_string(c: char) -> (r: String)
    ensures
        r@ == seq![c],
{
    let mut v: Vec<char> = Vec::new();
    v.push(c);
    string_of_chars(&v)
}

fn parse_additive(tokens: &Vec<char>, index: &mut usize) -> (r: TreeNode)
    requires
        *old(index) <= tokens.len(),
    ensures
        (r@, *final(index) as int) == p_additive(tokens@, *old(index) as int),
        *old(index) <= *final(index) <= tokens.len(),
    decreases rem(tokens@, *old(index) as int), 9nat,
{
    let ghost i0 = *index as int;
    let mut left = parse_multiplicative(tokens, index);
    while *index < tokens.len() && (tokens[*index] == '+' || tokens[*index] == '-')
        invariant
            0 <= i0 <= *index <= tokens.len(),
            i0 == *old(index) as int,
            p_additive(tokens@, i0) == additive_rest(tokens@, *index as int, left@),
        decreases tokens.len() - *index,
    {
        let op = tokens[*index];
        *index += 1;
        let right = parse_multiplicative(tokens, index);
        left = TreeNode::Op(op, Box::new(left), Box::new(right));
    }
    left
}

fn parse_multiplicative(tokens: &Vec<char>, index: &mut usize) -> (r: TreeNode)
    requires
        *old(index) <= tokens.len(),
    ensures
        (r@, *final(index) as int) == p_multiplicative(tokens@, *old(index) as int),
        *old(index) <= *final(index) <= tokens.len(),
    decreases rem(tokens@, *old(index) as int), 7nat,
{
    let ghost i0 = *index as int;
    let mut left = parse_power(tokens, index);
    while *index < tokens.len() && (tokens[*index] == '*' || tokens[*index] == '/')
        invariant
            0 <= i0 <= *index <= tokens.len(),
            i0 == *old(index) as int,
            p_multiplicative(tokens@, i0) == multiplicative_rest(tokens@, *index as int, left@),
        decreases tokens.len() - *index,
    {
        let op = tokens[*index];
        *index += 1;
        let right = parse_power(tokens, index);
        left = TreeNode::Op(op, Box::new(left), Box::new(right));
    }
    left
}

fn parse_power(tokens: &Vec<char>, index: &mut usize) -> (r: TreeNode)
    requires
        *old(index) <= tokens.len(),
    ensures
        (r@, *final(index) as int) == p_power(tokens@, *old(index) as int),
        *old(index) <= *final(index) <= tokens.len(),
    decreases rem(tokens@, *old(index) as int), 5nat,
{
    let ghost i0 = *index as int;
    let mut left = parse_unary(tokens, index);
    while *index < tokens.len() && tokens[*index] == '^'
        invariant
            0 <= i0 <= *index <= tokens.len(),
            i0 == *old(index) as int,
            p_power(tokens@, i0) == power_rest(tokens@, *index as int, left@),
        decreases tokens.len() - *index,
    {
        *index += 1;
        let right = parse_unary(tokens, index);
        left = TreeNode::Op('^', Box::new(left), Box::new(right));
    }
    left
}

fn parse_unary(tokens: &Vec<char>, index: &mut usize) -> (r: TreeNode)
    requires
        *old(index) <= tokens.len(),
    ensures
        (r@, *final(index) as int) == p_unary(tokens@, *old(index) as int),
        *old(index) <= *final(index) <= tokens.len(),
    decreases rem(tokens@, *old(index) as int), 3nat,
{
    if *index >= tokens.len() {
        return TreeNode::Empty;
    }
    if tokens[*index] == '+' {
        *index += 1;
        parse_unary(tokens, index)
    } else if tokens[*index] == '-' {
        *index += 1;
        if *index < tokens.len() && ((tokens[*index] >= '0' && tokens[*index] <= '9')
            || tokens[*index] == '.') {
            let mut num: Vec<char> = Vec::new();
            num.push('-');
            assert(num@ == seq!['-']);
            scan_number(tokens, index, &mut num);
            TreeNode::Num(string_of_chars(&num))
        } else {
            let zero = make_string('0');
            let operand = parse_unary(tokens, index);
            let zero_node = TreeNode::Num(zero);
            assert(zero_node@ == Tree::Num(seq!['0']));
            TreeNode::Op('-', Box::new(zero_node), Box::new(operand))
        }
    } else {
        parse_atomic(tokens, index)
    }
}

fn parse_atomic(tokens: &Vec<char>, index: &mut usize) -> (r: TreeNode)
    requires
        *old(index) <= tokens.len(),
    ensures
        (r@, *final(index) as int) == p_atomic(tokens@, *old(index) as int),
        *old(index) <= *final(index) <= tokens.len(),
    decreases rem(tokens@, *old(index) as int), 2nat,
{
    let ghost t = tokens@;
    let ghost i0 = *index as int;
    if *index >= tokens.len() {
        return TreeNode::Empty;
    }
    let c = tokens[*index];
    if c == '(' {
        *index += 1;
        let node = parse_additive(tokens, index);
        if *index < tokens.len() && tokens[*index] == ')' {
            *index += 1;
        }
        TreeNode::Paren(Box::new(node))
    } else if c >= '0' && c <= '9' {
        let mut num: Vec<char> = Vec::new();
        scan_number(tokens, index, &mut num);
        TreeNode::Num(string_of_chars(&num))
    } else if ('A' <= c && c <= 'Z') || ('a' <= c && c <= 'z') {
        let mut name: Vec<char> = Vec::new();
        let mut k: usize = *index;
        while k < tokens.len() && name_char(tokens[k])
            invariant
                0 <= i0 <= k <= tokens.len(),
                t == tokens@,
                name_end(t, i0) == name_end(t, k as int),
                name@ == t.subrange(i0, k as int),
            decreases tokens.len() - k,
        {
            name.push(tokens[k]);
            k += 1;
            assert(t.subrange(i0, k as int) == t.subrange(i0, k - 1).push(t[k - 1]));
        }
        *index = k;
        let ghost n = *index as int;
        let mut iterate: usize = 1;
        if *index < tokens.len() && tokens[*index] == '^' && *index + 1 < tokens.len() && tokens[*index + 1] == '[' {
            let saved_index = *index;
            *index += 2;
            let mut digits: Vec<char> = Vec::new();
            scan_digits(tokens, index, &mut digits);
            assert(digits@ == t.subrange(n + 2, *index as int));
            if *index < tokens.len() && tokens[*index] == ']' {
                *index += 1;
                assert forall|k: int| 0 <= k < digits.len() implies is_digit(#[trigger] digits@[k]) by {
                    lemma_digit_run(t, n + 2, n + 2 + k);
                }
                iterate = parse_count(&digits);
            } else {
                *index = saved_index;
            }
        }
        if *index < tokens.len() && tokens[*index] == '(' {
            *index += 1;
            let arg = parse_additive(tokens, index);
            if *index < tokens.len() && tokens[*index] == ')' {
                *index += 1;
            }
            TreeNode::Fun(string_of_chars(&name), iterate, Box::new(arg))
        } else {
            TreeNode::Var(string_of_chars(&name))
        }
    } else {
        *index += 1;
        TreeNode::Empty
    }
}

/// Every position between `i` and the end of its digit run holds a digit.
proof fn lemma_digit_run(t: Seq<char>, i: int, k: int)
    requires
        0 <= i <= k < digit_run_end(t, i),
    ensures
        is_digit(t[k]),
    decreases rem(t, i),
{
    if i < k {
        lemma_digit_run(t, i + 1, k);
    }
}

} // verus!
