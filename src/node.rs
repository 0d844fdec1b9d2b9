use crate::token::{Lit, Numeral, Tok, Token};
use vstd::prelude::*;

verus! {

broadcast use vstd::std_specs::vec::group_vec_axioms;

/// A node of the syntax tree of a formula. Each node owns its children.
#[derive(Debug)]
pub enum ASTNode {
    Number(Numeral),
    /// A unary sign (`true` for minus) applied to an operand.
    SignedNumber(bool, Box<ASTNode>),
    String(String),
    Bool(bool),
    Var(String),
    /// A cell, with the sheet it was qualified by.
    Ref(String, Option<String>),
    BinaryOp(Token, Box<ASTNode>, Box<ASTNode>),
    /// A range between two cells, both `Ref` nodes.
    Range(Box<ASTNode>, Box<ASTNode>),
    RowRange(Numeral, Numeral, Option<String>),
    ColRange(String, String, Option<String>),
    /// A sheet-qualified row number or column name that a `:` may still
    /// turn into a range.
    UndeterminedRange(String, Box<ASTNode>),
    Call(String, Vec<ASTNode>),
}

/// The mathematical model of an [`ASTNode`].
pub enum Tree {
    Number(Lit),
    SignedNumber(bool, Box<Tree>),
    String(Seq<char>),
    Bool(bool),
    Var(Seq<char>),
    Ref(Seq<char>, Option<Seq<char>>),
    BinaryOp(Tok, Box<Tree>, Box<Tree>),
    Range(Box<Tree>, Box<Tree>),
    RowRange(Lit, Lit, Option<Seq<char>>),
    ColRange(Seq<char>, Seq<char>, Option<Seq<char>>),
    UndeterminedRange(Seq<char>, Box<Tree>),
    Call(Seq<char>, Seq<Tree>),
}

/// The model of an optional sheet name.
pub open spec fn opt_view(o: Option<String>) -> Option<Seq<char>> {
    match o {
        Some(s) => Some(s@),
        None => None,
    }
}

/// The model of a node.
pub open spec fn node_view(n: ASTNode) -> Tree
    decreases n,
{
    match n {
        ASTNode::Number(x) => Tree::Number(x@),
        ASTNode::SignedNumber(neg, c) => Tree::SignedNumber(neg, Box::new(node_view(*c))),
        ASTNode::String(s) => Tree::String(s@),
        ASTNode::Bool(b) => Tree::Bool(b),
        ASTNode::Var(s) => Tree::Var(s@),
        ASTNode::Ref(r, sh) => Tree::Ref(r@, opt_view(sh)),
        ASTNode::BinaryOp(t, l, r) => Tree::BinaryOp(
            t@,
            Box::new(node_view(*l)),
            Box::new(node_view(*r)),
        ),
        ASTNode::Range(l, r) => Tree::Range(Box::new(node_view(*l)), Box::new(node_view(*r))),
        ASTNode::RowRange(f, t, sh) => Tree::RowRange(f@, t@, opt_view(sh)),
        ASTNode::ColRange(f, t, sh) => Tree::ColRange(f@, t@, opt_view(sh)),
        ASTNode::UndeterminedRange(sh, a) => Tree::UndeterminedRange(
            sh@,
            Box::new(node_view(*a)),
        ),
        ASTNode::Call(name, args) => Tree::Call(
            name@,
            Seq::new(
                args.len() as nat,
                |i: int|
                    if 0 <= i < args.len() {
                        node_view(args[i])
                    } else {
                        Tree::Bool(false)
                    },
            ),
        ),
    }
}

impl View for ASTNode {
    type V = Tree;

    open spec fn view(&self) -> Tree {
        node_view(*self)
    }
}

/// The models of a sequence of nodes.
pub open spec fn trees_view(v: Seq<ASTNode>) -> Seq<Tree> {
    v.map_values(|a: ASTNode| a@)
}

pub proof fn lemma_call_view(name: String, args: Vec<ASTNode>)
    ensures
        ASTNode::Call(name, args)@ == Tree::Call(name@, trees_view(args@)),
{
    let a = node_view(ASTNode::Call(name, args))->Call_1;
    assert(a.len() == args@.len());
    assert forall|k: int| 0 <= k < a.len() implies a[k] == trees_view(args@)[k] by {
        assert(args[k] == args@[k]);
    }
    assert(a =~= trees_view(args@));
}

pub proof fn lemma_trees_view_push(v: Seq<ASTNode>, a: ASTNode)
    ensures
        trees_view(v.push(a)) == trees_view(v).push(a@),
{
    let l = trees_view(v.push(a));
    let r = trees_view(v).push(a@);
    assert(l.len() == v.len() + 1);
    assert forall|k: int| 0 <= k < l.len() implies l[k] == r[k] by {
        if k < v.len() {
            assert(v.push(a)[k] == v[k]);
        }
    }
    assert(l =~= r);
}

pub proof fn lemma_trees_view_empty()
    ensures
        trees_view(Seq::empty()) == Seq::<Tree>::empty(),
{
    assert(trees_view(Seq::empty()) =~= Seq::<Tree>::empty());
}

} // verus!
