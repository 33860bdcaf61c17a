//! From a tree back to text, and the tree laid out level by level.
use vstd::prelude::*;
use crate::parser::make_string;
use crate::text::{append_chars, string_of_chars};
use crate::tree::{Tree, TreeNode};

verus! {

/// Binding strength of an operator: `^` 4, `*` `/` 3, `+` `-` 2, others 0.
pub open spec fn prec_of(op: char) -> nat {
    if op == '^' {
        4
    } else if op == '*' || op == '/' {
        3
    } else if op == '+' || op == '-' {
        2
    } else {
        0
    }
}

/// The decimal digits of `n`.
pub open spec fn nat_text(n: nat) -> Seq<char>
    decreases n,
{
    let d = (('0' as nat) + n % 10) as char;
    if n < 10 {
        seq![d]
    } else {
        nat_text(n / 10).push(d)
    }
}

/// The text of a tree whose parent binds with strength `parent`.
///
/// An operator binding less tightly than its context is put in parentheses,
/// unless it stands at the top of a group. The right operand of `^` gets one
/// more level, so that `^` reads right-associatively.
pub open spec fn render(t: Tree, parent: nat, is_root: bool) -> Seq<char>
    decreases t,
{
    match t {
        Tree::Op(op, l, r) => {
            let p = prec_of(op);
            let e = render(*l, p, false).push(op) + render(*r, if op == '^' { p + 1 } else { p }, false);
            if p < parent && !is_root {
                seq!['('] + e + seq![')']
            } else {
                e
            }
        },
        Tree::Num(n) => n,
        Tree::Var(v) => v,
        Tree::Fun(name, k, a) => {
            let count = if k > 1 {
                seq!['^', '['] + nat_text(k as nat) + seq![']']
            } else {
                Seq::empty()
            };
            name + count + seq!['('] + render(*a, 0, false) + seq![')']
        },
        Tree::Paren(e) => {
            let inner = render(*e, 0, true);
            if parent > 0 {
                seq!['('] + inner + seq![')']
            } else {
                inner
            }
        },
        Tree::Empty => Seq::empty(),
    }
}

fn push_nat_text(n: usize, out: &mut Vec<char>)
    ensures
        final(out)@ == old(out)@ + nat_text(n as nat),
    decreases n,
{
    let d = (('0' as u8) + ((n % 10) as u8)) as char;
    assert(d == (('0' as nat) + (n as nat) % 10) as char);
    if n >= 10 {
        push_nat_text(n / 10, out);
    }
    out.push(d);
}

fn push_str_chars(out: &mut Vec<char>, s: &String)
    ensures
        final(out)@ == old(out)@ + s@,
{
    let v = crate::text::chars_of(s.as_str());
    append_chars(out, &v);
}

fn build_expr(node: &TreeNode, parent: u8, is_root: bool, out: &mut Vec<char>)
    requires
        parent <= 5,
    ensures
        final(out)@ == old(out)@ + render(node@, parent as nat, is_root),
    decreases node,
{
    match node {
        TreeNode::Op(op, l, r) => {
            let op = *op;
            let p: u8 = if op == '^' {
                4
            } else if op == '*' || op == '/' {
                3
            } else if op == '+' || op == '-' {
                2
            } else {
                0
            };
            let wrap = p < parent && !is_root;
            let ghost start = out@;
            if wrap {
                out.push('(');
            }
            let ghost s1 = out@;
            build_expr(l, p, false, out);
            out.push(op);
            build_expr(r, if op == '^' { p + 1 } else { p }, false, out);
            let ghost e = render((**l)@, p as nat, false).push(op) + render(
                (**r)@,
                (if op == '^' { p + 1 } else { p as int }) as nat,
                false,
            );
            assert(out@ == s1 + e);
            if wrap {
                out.push(')');
                assert(out@ == start + (seq!['('] + e + seq![')']));
            } else {
                assert(out@ == start + e);
            }
        },
        TreeNode::Num(n) => {
            push_str_chars(out, n);
        },
        TreeNode::Var(v) => {
            push_str_chars(out, v);
        },
        TreeNode::Fun(name, k, a) => {
            let ghost start = out@;
            push_str_chars(out, name);
            if *k > 1 {
                out.push('^');
                out.push('[');
                push_nat_text(*k, out);
                out.push(']');
            }
            out.push('(');
            build_expr(a, 0, false, out);
            out.push(')');
            let ghost count = if *k > 1 {
                seq!['^', '['] + nat_text(*k as nat) + seq![']']
            } else {
                Seq::<char>::empty()
            };
            assert(out@ == start + (name@ + count + seq!['('] + render((**a)@, 0, false) + seq![')']));
        },
        TreeNode::Paren(e) => {
            let ghost start = out@;
            if parent > 0 {
                out.push('(');
            }
            build_expr(e, 0, true, out);
            if parent > 0 {
                out.push(')');
                assert(out@ == start + (seq!['('] + render((**e)@, 0, true) + seq![')']));
            }
        },
        TreeNode::Empty => {
            assert(old(out)@ + Seq::<char>::empty() == old(out)@);
        },
    }
}

/// Converts an expression tree back to a string like `3*x+5`.
pub fn create_expression(node: TreeNode) -> (r: String)
    ensures
        r@ == render(node@, 0, true),
{
    let mut out: Vec<char> = Vec::new();
    build_expr(&node, 0, true, &mut out);
    assert(out@ == render(node@, 0, true));
    string_of_chars(&out)
}

/// The child of a node that stands at the odd (left) position below it.
pub open spec fn left_child(t: Tree) -> Option<Tree> {
    match t {
        Tree::Op(_, l, _) => Some(*l),
        Tree::Paren(e) => Some(*e),
        _ => None,
    }
}

/// The child of a node that stands at the even (right) position below it;
/// a function's argument stands there.
pub open spec fn right_child(t: Tree) -> Option<Tree> {
    match t {
        Tree::Op(_, _, r) => Some(*r),
        Tree::Fun(_, _, a) => Some(*a),
        _ => None,
    }
}

/// The subtree at position `i` of the level-order layout: the root at 0 and
/// the children of position `p` at `2p+1` and `2p+2`.
pub open spec fn subtree_at(t: Tree, i: nat) -> Option<Tree>
    decreases i,
{
    if i == 0 {
        Some(t)
    } else {
        match subtree_at(t, ((i - 1) as nat) / 2) {
            Some(n) => if i % 2 == 1 {
                left_child(n)
            } else {
                right_child(n)
            },
            None => None,
        }
    }
}

/// The label of a node: its operator, literal, name, `()` for a group.
pub open spec fn label(t: Tree) -> Seq<char> {
    match t {
        Tree::Op(op, _, _) => seq![op],
        Tree::Num(n) => n,
        Tree::Var(v) => v,
        Tree::Fun(name, _, _) => name,
        Tree::Paren(_) => seq!['(', ')'],
        Tree::Empty => Seq::empty(),
    }
}

/// What the level-order layout holds at position `i`: the label of the
/// subtree there, or nothing.
pub open spec fn slot(t: Tree, i: nat) -> Seq<char> {
    match subtree_at(t, i) {
        Some(n) => label(n),
        None => Seq::empty(),
    }
}

fn node_at(root: &TreeNode, i: usize) -> (r: Option<&TreeNode>)
    ensures
        match r {
            Some(n) => subtree_at(root@, i as nat) == Some(n@),
            None => subtree_at(root@, i as nat) is None,
        },
    decreases i,
{
    if i == 0 {
        return Some(root);
    }
    let parent = node_at(root, (i - 1) / 2);
    match parent {
        Some(n) => {
            if i % 2 == 1 {
                match n {
                    TreeNode::Op(_, l, _) => Some(&**l),
                    TreeNode::Paren(e) => Some(&**e),
                    _ => None,
                }
            } else {
                match n {
                    TreeNode::Op(_, _, r) => Some(&**r),
                    TreeNode::Fun(_, _, a) => Some(&**a),
                    _ => None,
                }
            }
        },
        None => None,
    }
}

fn slot_text(root: &TreeNode, i: usize) -> (r: String)
    ensures
        r@ == slot(root@, i as nat),
{
    match node_at(root, i) {
        Some(n) => match n {
            TreeNode::Op(op, _, _) => make_string(*op),
            TreeNode::Num(s) => s.clone(),
            TreeNode::Var(s) => s.clone(),
            TreeNode::Fun(name, _, _) => name.clone(),
            TreeNode::Paren(_) => {
                let mut v: Vec<char> = Vec::new();
                v.push('(');
                v.push(')');
                assert(v@ == seq!['(', ')']);
                string_of_chars(&v)
            },
            TreeNode::Empty => {
                let v: Vec<char> = Vec::new();
                string_of_chars(&v)
            },
        },
        None => {
            let v: Vec<char> = Vec::new();
            string_of_chars(&v)
        },
    }
}

/// The tree laid out level by level in an array of 15 slots: the root at 0,
/// the children of slot `p` at `2p+1` and `2p+2`; deeper nodes are left out.
pub fn level_order_to_array(root: TreeNode) -> (r: [String; 15])
    ensures
        forall|i: int| 0 <= i < 15 ==> (#[trigger] r[i])@ == slot(root@, i as nat),
{
    [
        slot_text(&root, 0),
        slot_text(&root, 1),
        slot_text(&root, 2),
        slot_text(&root, 3),
        slot_text(&root, 4),
        slot_text(&root, 5),
        slot_text(&root, 6),
        slot_text(&root, 7),
        slot_text(&root, 8),
        slot_text(&root, 9),
        slot_text(&root, 10),
        slot_text(&root, 11),
        slot_text(&root, 12),
        slot_text(&root, 13),
        slot_text(&root, 14),
    ]
}

} // verus!
