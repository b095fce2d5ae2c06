//! The tree model: a node is a leaf naming an operand slot, or a binary
//! operator over two shared, immutable sub-trees.

use std::rc::Rc;
use vstd::prelude::*;

verus! {

/// What a node holds: an operator character or the index of an operand slot.
#[derive(Clone, Copy, Debug, PartialEq, Eq, Structural)]
pub enum NodeValue {
    Operator(char),
    Index(usize),
}

/// One node of an expression tree. Children are shared by reference count and
/// never change once attached.
pub struct Node {
    pub value: NodeValue,
    pub left: Option<Rc<Node>>,
    pub right: Option<Rc<Node>>,
    /// Creation counter; it orders nodes during enumeration and carries no
    /// arithmetic meaning.
    pub id: u32,
}

/// An arithmetic expression over operand slots, without creation counters.
pub enum Expr {
    Leaf(nat),
    Binary(char, Box<Expr>, Box<Expr>),
}

/// The mathematical value of a well-formed [`Node`]: its expression together
/// with the creation counter of every node.
pub enum Tree {
    Leaf { slot: nat, id: nat },
    Op { op: char, left: Box<Tree>, right: Box<Tree>, id: nat },
}

/// The four supported operators.
pub open spec fn is_operator(c: char) -> bool {
    c == '+' || c == '-' || c == '*' || c == '/'
}

impl Tree {
    /// The creation counter of the root.
    pub open spec fn id(self) -> nat {
        match self {
            Tree::Leaf { id, .. } => id,
            Tree::Op { id, .. } => id,
        }
    }

    /// Whether the root is an operator node with operator `c`.
    pub open spec fn has_operator(self, c: char) -> bool {
        self matches Tree::Op { op, .. } && op == c
    }

    /// The expression that remains when the creation counters are dropped.
    pub open spec fn expr(self) -> Expr
        decreases self,
    {
        match self {
            Tree::Leaf { slot, .. } => Expr::Leaf(slot),
            Tree::Op { op, left, right, .. } => Expr::Binary(
                op,
                Box::new(left.expr()),
                Box::new(right.expr()),
            ),
        }
    }
}

impl Node {
    /// A node is well formed when every operator node below it (itself
    /// included) carries one of the four operators and both children.
    pub open spec fn wf(&self) -> bool
        decreases self,
    {
        match self.value {
            NodeValue::Index(_) => true,
            NodeValue::Operator(op) => {
                &&& is_operator(op)
                &&& self.left is Some
                &&& self.right is Some
                &&& self.left->0.wf()
                &&& self.right->0.wf()
            },
        }
    }

    /// The tree a well-formed node stands for. Children attached to a leaf
    /// are not part of it.
    pub open spec fn model(&self) -> Tree
        recommends
            self.wf(),
        decreases self,
    {
        match self.value {
            NodeValue::Index(slot) => Tree::Leaf { slot: slot as nat, id: self.id as nat },
            NodeValue::Operator(op) => {
                if self.left is Some && self.right is Some {
                    Tree::Op {
                        op,
                        left: Box::new(self.left->0.model()),
                        right: Box::new(self.right->0.model()),
                        id: self.id as nat,
                    }
                } else {
                    arbitrary()
                }
            },
        }
    }

    /// How the tree of a well-formed node is made of its fields.
    pub proof fn lemma_model(&self)
        requires
            self.wf(),
        ensures
            self@.id() == self.id,
            self.value matches NodeValue::Index(slot) ==> self@ == (Tree::Leaf {
                slot: slot as nat,
                id: self.id as nat,
            }),
            self.value matches NodeValue::Operator(op) ==> {
                &&& is_operator(op)
                &&& self.left is Some
                &&& self.right is Some
                &&& self.left->0.wf()
                &&& self.right->0.wf()
                &&& self@ == (Tree::Op {
                    op,
                    left: Box::new(self.left->0@),
                    right: Box::new(self.right->0@),
                    id: self.id as nat,
                })
            },
    {
    }

    /// Tests at run time whether the node is well formed.
    pub fn well_formed(&self) -> (res: bool)
        ensures
            res == self.wf(),
        decreases self,
    {
        match self.value {
            NodeValue::Index(_) => true,
            NodeValue::Operator(op) => {
                if op == '+' || op == '-' || op == '*' || op == '/' {
                    match (&self.left, &self.right) {
                        (Some(left), Some(right)) => left.well_formed() && right.well_formed(),
                        _ => false,
                    }
                } else {
                    false
                }
            },
        }
    }

    /// A node with the given value and creation counter and no children yet.
    pub fn new(value: NodeValue, id: u32) -> (node: Node)
        ensures
            node.value == value,
            node.left is None,
            node.right is None,
            node.id == id,
            value matches NodeValue::Index(slot) ==> node.wf() && node@ == (Tree::Leaf {
                slot: slot as nat,
                id: id as nat,
            }),
    {
        Node { value, left: None, right: None, id }
    }

    /// The same node with `node` attached as its left child.
    pub fn left(self, node: &Rc<Node>) -> (res: Node)
        ensures
            res.value == self.value,
            res.left == Some(*node),
            res.right == self.right,
            res.id == self.id,
    {
        let mut res = self;
        res.left = Some(node.clone());
        res
    }

    /// The same node with `node` attached as its right child.
    pub fn right(self, node: &Rc<Node>) -> (res: Node)
        ensures
            res.value == self.value,
            res.left == self.left,
            res.right == Some(*node),
            res.id == self.id,
    {
        let mut res = self;
        res.right = Some(node.clone());
        res
    }
}

impl View for Node {
    type V = Tree;

    open spec fn view(&self) -> Tree {
        self.model()
    }
}

/// The trees that a sequence of shared nodes stands for.
pub open spec fn models(nodes: Seq<Rc<Node>>) -> Seq<Tree> {
    nodes.map_values(|n: Rc<Node>| n@)
}

/// Every node of the sequence is well formed.
pub open spec fn all_wf(nodes: Seq<Rc<Node>>) -> bool {
    forall|k: int| 0 <= k < nodes.len() ==> (#[trigger] nodes[k]).wf()
}

} // verus!
