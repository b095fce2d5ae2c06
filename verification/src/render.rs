//! Infix text of a tree, with no more parentheses than precedence asks for.

use crate::node::{is_operator, Expr, Node, NodeValue};
use crate::reading::{lemma_node_text_keeps_value, text_value, value};
use vstd::prelude::*;
use vstd::string::StringExecFns;

verus! {

/// The character of a decimal digit.
pub open spec fn digit(d: nat) -> char
    recommends
        d < 10,
{
    seq!['0', '1', '2', '3', '4', '5', '6', '7', '8', '9'][d as int]
}

/// The decimal numeral of `n`, without leading zeros.
pub open spec fn decimal(n: nat) -> Seq<char>
    decreases n,
{
    if n < 10 {
        seq![digit(n)]
    } else {
        decimal(n / 10).push(digit(n % 10))
    }
}

/// An operator node whose operator is `+` or `-`.
pub open spec fn additive(e: Expr) -> bool {
    e matches Expr::Binary(op, _, _) && (op == '+' || op == '-')
}

/// A left operand is grouped when a sum or difference stands under a product
/// or quotient.
pub open spec fn left_needs_parens(op: char, left: Expr) -> bool {
    (op == '*' || op == '/') && additive(left)
}

/// A right operand is grouped when it is any operator node under a division,
/// or a sum or difference under a product or a subtraction.
pub open spec fn right_needs_parens(op: char, right: Expr) -> bool {
    ||| op == '/' && right is Binary
    ||| (op == '*' || op == '-') && additive(right)
}

/// `text`, in parentheses if `parens` is set.
pub open spec fn grouped(text: Seq<char>, parens: bool) -> Seq<char> {
    if parens {
        seq!['('] + text + seq![')']
    } else {
        text
    }
}

/// The infix text of an expression. A leaf is its slot number in square
/// brackets, a placeholder for the operand.
pub open spec fn render_text(e: Expr) -> Seq<char>
    decreases e,
{
    match e {
        Expr::Leaf(slot) => seq!['['] + decimal(slot) + seq![']'],
        Expr::Binary(op, left, right) => {
            grouped(render_text(*left), left_needs_parens(op, *left)) + seq![op] + grouped(
                render_text(*right),
                right_needs_parens(op, *right),
            )
        },
    }
}

fn digit_text(d: usize) -> (text: &'static str)
    requires
        d < 10,
    ensures
        text@ == seq![digit(d as nat)],
{
    proof {
        reveal_strlit("0");
        reveal_strlit("1");
        reveal_strlit("2");
        reveal_strlit("3");
        reveal_strlit("4");
        reveal_strlit("5");
        reveal_strlit("6");
        reveal_strlit("7");
        reveal_strlit("8");
        reveal_strlit("9");
    }
    let text = if d == 0 {
        "0"
    } else if d == 1 {
        "1"
    } else if d == 2 {
        "2"
    } else if d == 3 {
        "3"
    } else if d == 4 {
        "4"
    } else if d == 5 {
        "5"
    } else if d == 6 {
        "6"
    } else if d == 7 {
        "7"
    } else if d == 8 {
        "8"
    } else {
        "9"
    };
    assert(text@ =~= seq![digit(d as nat)]);
    text
}

fn operator_text(op: char) -> (text: &'static str)
    requires
        is_operator(op),
    ensures
        text@ == seq![op],
{
    proof {
        reveal_strlit("+");
        reveal_strlit("-");
        reveal_strlit("*");
        reveal_strlit("/");
    }
    let text = if op == '+' {
        "+"
    } else if op == '-' {
        "-"
    } else if op == '*' {
        "*"
    } else {
        "/"
    };
    assert(text@ =~= seq![op]);
    text
}

/// Appends the decimal numeral of `n` to `text`.
fn push_decimal(text: &mut String, n: usize)
    ensures
        final(text)@ == old(text)@ + decimal(n as nat),
    decreases n,
{
    if n >= 10 {
        push_decimal(text, n / 10);
    }
    text.append(digit_text(n % 10));
}

fn is_additive(node: &Node) -> (res: bool)
    requires
        node.wf(),
    ensures
        res == additive(node@.expr()),
{
    node.value == NodeValue::Operator('+') || node.value == NodeValue::Operator('-')
}

fn is_composite(node: &Node) -> (res: bool)
    requires
        node.wf(),
    ensures
        res == (node@.expr() is Binary),
{
    match node.value {
        NodeValue::Index(_) => false,
        NodeValue::Operator(_) => true,
    }
}

impl Node {
    /// Appends to `text` the rendering of this node, in parentheses if
    /// `parens` is set.
    fn render_grouped(&self, text: &mut String, parens: bool)
        requires
            self.wf(),
        ensures
            final(text)@ == old(text)@ + grouped(render_text(self@.expr()), parens),
        decreases self, 1nat,
    {
        proof {
            reveal_strlit("(");
            reveal_strlit(")");
        }
        if parens {
            text.append("(");
            self.render_into(text);
            text.append(")");
            assert(text@ =~= old(text)@ + grouped(render_text(self@.expr()), parens));
        } else {
            self.render_into(text);
        }
    }

    /// Appends the rendering of this node to `text`.
    fn render_into(&self, text: &mut String)
        requires
            self.wf(),
        ensures
            final(text)@ == old(text)@ + render_text(self@.expr()),
        decreases self, 0nat,
    {
        match self.value {
            NodeValue::Index(slot) => {
                proof {
                    reveal_strlit("[");
                    reveal_strlit("]");
                }
                text.append("[");
                push_decimal(text, slot);
                text.append("]");
                assert(text@ =~= old(text)@ + render_text(self@.expr()));
            },
            NodeValue::Operator(op) => {
                let left = self.left.as_ref().unwrap();
                let right = self.right.as_ref().unwrap();
                let left_cap = (op == '*' || op == '/') && is_additive(left);
                let right_cap = op == '/' && is_composite(right) || ((op == '*' || op == '-')
                    && is_additive(right));
                left.render_grouped(text, left_cap);
                text.append(operator_text(op));
                right.render_grouped(text, right_cap);
                assert(text@ =~= old(text)@ + render_text(self@.expr()));
            },
        }
    }

    /// The infix text of this tree, with slot placeholders such as `[0]` for
    /// the operands. Read as ordinary arithmetic over any operands, the text
    /// has the exact value of the tree.
    pub fn render(&self) -> (text: String)
        requires
            self.wf(),
        ensures
            text@ == render_text(self@.expr()),
            forall|operands: Seq<int>| #[trigger]
                text_value(text@, operands) == value(self@.expr(), operands),
    {
        let mut text = String::new();
        self.render_into(&mut text);
        assert(text@ =~= render_text(self@.expr()));
        proof {
            assert forall|operands: Seq<int>| #[trigger]
                text_value(text@, operands) == value(self@.expr(), operands) by {
                lemma_node_text_keeps_value(self, operands);
            }
        }
        text
    }
}

} // verus!
