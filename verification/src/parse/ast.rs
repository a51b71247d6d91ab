//! The syntax tree.

use vstd::prelude::*;

verus! {

/// The binary operators of the syntax tree.
#[derive(Debug, Copy, Clone, PartialEq, Eq, Structural)]
pub enum Binary {
    Add,
    Sub,
    Div,
    Mul,
    Pow,
}

/// The unary operators of the syntax tree.
#[derive(Debug, Copy, Clone, PartialEq, Eq, Structural)]
pub enum Unary {
    Pos,
    Neg,
}

/// A syntax tree. Every node owns its children; a constant keeps the text
/// of its literal, which the evaluator's arithmetic turns into a number.
#[derive(Debug, PartialEq)]
pub enum Node {
    UnOp(Unary, Box<Node>),
    BinOp(Binary, Box<Node>, Box<Node>),
    Const(String),
    Id(String),
    Call(String, Vec<Node>),
}

/// The mathematical content of a [`Node`].
pub enum Tree {
    UnOp(Unary, Box<Tree>),
    BinOp(Binary, Box<Tree>, Box<Tree>),
    Const(Seq<char>),
    Id(Seq<char>),
    Call(Seq<char>, Seq<Tree>),
}

impl Node {
    /// The tree that this node stands for.
    pub open spec fn tree(&self) -> Tree
        decreases self,
    {
        match self {
            Node::UnOp(op, operand) => Tree::UnOp(*op, Box::new(operand.tree())),
            Node::BinOp(op, left, right) => Tree::BinOp(
                *op,
                Box::new(left.tree()),
                Box::new(right.tree()),
            ),
            Node::Const(literal) => Tree::Const(literal@),
            Node::Id(name) => Tree::Id(name@),
            Node::Call(name, args) => Tree::Call(
                name@,
                Seq::new(
                    args@.len(),
                    |i: int|
                        if 0 <= i < args@.len() {
                            args@[i].tree()
                        } else {
                            arbitrary()
                        },
                ),
            ),
        }
    }
}

impl View for Node {
    type V = Tree;

    open spec fn view(&self) -> Tree {
        self.tree()
    }
}

/// The trees that a sequence of nodes stands for, in order.
pub open spec fn trees(nodes: Seq<Node>) -> Seq<Tree> {
    nodes.map_values(|node: Node| node@)
}

/// The tree of a call is made of the call's name and the trees of its
/// arguments.
pub proof fn lemma_call_tree(name: String, args: Vec<Node>)
    ensures
        Node::Call(name, args)@ == Tree::Call(name@, trees(args@)),
{
    let call = Node::Call(name, args);
    assert(call.tree()->Call_1 =~= trees(args@));
}

} // verus!
