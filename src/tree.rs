//! The expression tree and its mathematical model.
use vstd::prelude::*;

verus! {

/// A node of a binary algebraic expression tree.
///
/// Numbers keep their source text; `Fun` holds the function name, how many
/// times it is applied in a row, and its argument.
#[derive(Debug, PartialEq)]
pub enum TreeNode {
    Op(char, Box<TreeNode>, Box<TreeNode>),
    Num(String),
    Var(String),
    Fun(String, usize, Box<TreeNode>),
    Paren(Box<TreeNode>),
    Empty,
}

/// The model of a `TreeNode`: the same shape, with texts as character sequences.
pub enum Tree {
    Op(char, Box<Tree>, Box<Tree>),
    Num(Seq<char>),
    Var(Seq<char>),
    Fun(Seq<char>, usize, Box<Tree>),
    Paren(Box<Tree>),
    Empty,
}

impl View for TreeNode {
    type V = Tree;

    open spec fn view(&self) -> Tree
        decreases self,
    {
        match self {
            TreeNode::Op(c, l, r) => Tree::Op(*c, Box::new((**l).view()), Box::new((**r).view())),
            TreeNode::Num(s) => Tree::Num(s@),
            TreeNode::Var(s) => Tree::Var(s@),
            TreeNode::Fun(n, k, a) => Tree::Fun(n@, *k, Box::new((**a).view())),
            TreeNode::Paren(e) => Tree::Paren(Box::new((**e).view())),
            TreeNode::Empty => Tree::Empty,
        }
    }
}

/// Number of nodes of a tree.
pub open spec fn size(t: Tree) -> nat
    decreases t,
{
    match t {
        Tree::Op(_, l, r) => 1 + size(*l) + size(*r),
        Tree::Fun(_, _, a) => 1 + size(*a),
        Tree::Paren(e) => 1 + size(*e),
        _ => 1,
    }
}

/// A named expression ("tablet"): a function of `x` that other expressions can call.
#[derive(Debug, PartialEq)]
pub struct BinaryAlgebraicExpressionTree {
    pub name: String,
    pub root_node: TreeNode,
}

/// The model of a tablet: its name and the model of its tree.
pub struct Tablet {
    pub name: Seq<char>,
    pub root: Tree,
}

impl View for BinaryAlgebraicExpressionTree {
    type V = Tablet;

    open spec fn view(&self) -> Tablet {
        Tablet { name: self.name@, root: self.root_node@ }
    }
}

/// A set of tablets with input/output examples for checking them.
#[derive(Clone, Debug)]
pub struct TestCase {
    pub description: Option<String>,
    /// Each example holds an input and the expected output.
    pub examples: Vec<[String; 2]>,
    pub solution: Vec<BinaryAlgebraicExpressionTree>,
}

impl Default for BinaryAlgebraicExpressionTree {
    /// A tablet called `NEW` whose tree is the number `1`.
    fn default() -> (r: BinaryAlgebraicExpressionTree)
        ensures
            r.name@ == seq!['N', 'E', 'W'],
            r.root_node@ == Tree::Num(seq!['1']),
    {
        let mut n: Vec<char> = Vec::new();
        n.push('N');
        n.push('E');
        n.push('W');
        assert(n@ =~= seq!['N', 'E', 'W']);
        BinaryAlgebraicExpressionTree {
            name: crate::text::string_of_chars(&n),
            root_node: TreeNode::Num(crate::parser::make_string('1')),
        }
    }
}

impl Clone for TreeNode {
    fn clone(&self) -> (r: TreeNode)
        ensures
            r@ == self@,
        decreases self,
    {
        match self {
            TreeNode::Op(c, l, r) => TreeNode::Op(*c, Box::new((**l).clone()), Box::new((**r).clone())),
            TreeNode::Num(s) => TreeNode::Num(s.clone()),
            TreeNode::Var(s) => TreeNode::Var(s.clone()),
            TreeNode::Fun(n, k, a) => TreeNode::Fun(n.clone(), *k, Box::new((**a).clone())),
            TreeNode::Paren(e) => TreeNode::Paren(Box::new((**e).clone())),
            TreeNode::Empty => TreeNode::Empty,
        }
    }
}

impl Clone for BinaryAlgebraicExpressionTree {
    fn clone(&self) -> (r: BinaryAlgebraicExpressionTree)
        ensures
            r@ == self@,
    {
        BinaryAlgebraicExpressionTree { name: self.name.clone(), root_node: self.root_node.clone() }
    }
}

} // verus!
