//! What a rendered tree means when it is read back as ordinary arithmetic:
//! exact values of expressions, the value of infix text under the usual
//! precedence, and the proof that rendering keeps the value.

use crate::node::{is_operator, Expr, Node, NodeValue};
use crate::render::{
    additive, decimal, digit, grouped, left_needs_parens, render_text, right_needs_parens,
};
use vstd::prelude::*;

verus! {

/// The fraction `num / den`, not reduced.
pub struct Fraction {
    pub num: int,
    pub den: int,
}

/// The result of one operation, exact. Division by a fraction whose
/// numerator is zero has no value.
pub open spec fn combine(op: char, x: Fraction, y: Fraction) -> Option<Fraction> {
    if op == '+' {
        Some(Fraction { num: x.num * y.den + y.num * x.den, den: x.den * y.den })
    } else if op == '-' {
        Some(Fraction { num: x.num * y.den - y.num * x.den, den: x.den * y.den })
    } else if op == '*' {
        Some(Fraction { num: x.num * y.num, den: x.den * y.den })
    } else if op == '/' && y.num != 0 {
        Some(Fraction { num: x.num * y.den, den: x.den * y.num })
    } else {
        None
    }
}

/// The exact value of an expression over the operands, if every slot has an
/// operand and no divisor is zero.
pub open spec fn value(e: Expr, operands: Seq<int>) -> Option<Fraction>
    decreases e,
{
    match e {
        Expr::Leaf(slot) => if slot < operands.len() {
            Some(Fraction { num: operands[slot as int], den: 1 })
        } else {
            None
        },
        Expr::Binary(op, left, right) => match (value(*left, operands), value(*right, operands)) {
            (Some(x), Some(y)) => combine(op, x, y),
            _ => None,
        },
    }
}

/// A value is a fraction in earnest: its denominator is not zero.
pub proof fn lemma_value_denominator(e: Expr, operands: Seq<int>)
    ensures
        value(e, operands) matches Some(v) ==> v.den != 0,
    decreases e,
{
    match e {
        Expr::Leaf(_) => {},
        Expr::Binary(op, left, right) => {
            lemma_value_denominator(*left, operands);
            lemma_value_denominator(*right, operands);
            match (value(*left, operands), value(*right, operands)) {
                (Some(x), Some(y)) => {
                    assert(x.den != 0 && y.den != 0 ==> x.den * y.den != 0) by (nonlinear_arith);
                    assert(x.den != 0 && y.num != 0 ==> x.den * y.num != 0) by (nonlinear_arith);
                },
                _ => {},
            }
        },
    }
}

/// Every operator of the expression is one of the four.
pub open spec fn proper(e: Expr) -> bool
    decreases e,
{
    match e {
        Expr::Leaf(_) => true,
        Expr::Binary(op, left, right) => is_operator(op) && proper(*left) && proper(*right),
    }
}

/// One of the ten decimal digits.
pub open spec fn is_digit(c: char) -> bool {
    c == '0' || c == '1' || c == '2' || c == '3' || c == '4' || c == '5' || c == '6' || c == '7'
        || c == '8' || c == '9'
}

/// The number that a decimal digit stands for.
pub open spec fn digit_value(c: char) -> nat
    recommends
        is_digit(c),
{
    if c == '1' {
        1
    } else if c == '2' {
        2
    } else if c == '3' {
        3
    } else if c == '4' {
        4
    } else if c == '5' {
        5
    } else if c == '6' {
        6
    } else if c == '7' {
        7
    } else if c == '8' {
        8
    } else if c == '9' {
        9
    } else {
        0
    }
}

/// The number that the digits `s[from..to]` write in base ten.
pub open spec fn number(s: Seq<char>, from: int, to: int) -> nat
    decreases to - from,
{
    if to <= from {
        0
    } else {
        number(s, from, to - 1) * 10 + digit_value(s[to - 1])
    }
}

/// The position of the first `]` at or after `from`, or the length of the
/// text if there is none.
pub open spec fn closing(s: Seq<char>, from: int) -> int
    decreases s.len() - from,
{
    if from >= s.len() {
        s.len() as int
    } else if s[from] == ']' {
        from
    } else {
        closing(s, from + 1)
    }
}

/// The characters `s[from..to]` are decimal digits.
pub open spec fn all_digits(s: Seq<char>, from: int, to: int) -> bool {
    forall|k: int| from <= k < to ==> is_digit(#[trigger] s[k])
}

/// Reads at `at` a placeholder `[k]`, which stands for operand `k`, or a
/// sum in parentheses. Gives the value and the position behind what was
/// read.
pub open spec fn read_atom(s: Seq<char>, operands: Seq<int>, at: int) -> Option<(Fraction, int)>
    decreases s.len() - at, 0int,
{
    if at < 0 || at >= s.len() {
        None
    } else if s[at] == '[' {
        let end = closing(s, at + 1);
        let slot = number(s, at + 1, end);
        if at + 1 < end < s.len() && all_digits(s, at + 1, end) && slot < operands.len() {
            Some((Fraction { num: operands[slot as int], den: 1 }, end + 1))
        } else {
            None
        }
    } else if s[at] == '(' {
        match read_sum(s, operands, at + 1) {
            Some((v, next)) => if 0 <= next < s.len() && s[next] == ')' {
                Some((v, next + 1))
            } else {
                None
            },
            None => None,
        }
    } else {
        None
    }
}

/// Reads at `at` atoms joined by `*` and `/`, grouped from the left.
pub open spec fn read_product(s: Seq<char>, operands: Seq<int>, at: int) -> Option<
    (Fraction, int),
>
    decreases s.len() - at, 1int,
{
    if at < 0 || at >= s.len() {
        None
    } else {
        match read_atom(s, operands, at) {
            Some((v, next)) => if at < next <= s.len() {
                read_factors(s, operands, v, next)
            } else {
                None
            },
            None => None,
        }
    }
}

/// Goes on from the product `acc` with the factors that follow at `at`.
pub open spec fn read_factors(s: Seq<char>, operands: Seq<int>, acc: Fraction, at: int) -> Option<
    (Fraction, int),
>
    decreases s.len() - at, 1int,
{
    if 0 <= at < s.len() && (s[at] == '*' || s[at] == '/') {
        match read_atom(s, operands, at + 1) {
            Some((v, next)) => match combine(s[at], acc, v) {
                Some(w) => if at < next <= s.len() {
                    read_factors(s, operands, w, next)
                } else {
                    None
                },
                None => None,
            },
            None => None,
        }
    } else {
        Some((acc, at))
    }
}

/// Reads at `at` products joined by `+` and `-`, grouped from the left.
pub open spec fn read_sum(s: Seq<char>, operands: Seq<int>, at: int) -> Option<(Fraction, int)>
    decreases s.len() - at, 2int,
{
    if at < 0 || at >= s.len() {
        None
    } else {
        match read_product(s, operands, at) {
            Some((v, next)) => if at < next <= s.len() {
                read_terms(s, operands, v, next)
            } else {
                None
            },
            None => None,
        }
    }
}

/// Goes on from the sum `acc` with the terms that follow at `at`.
pub open spec fn read_terms(s: Seq<char>, operands: Seq<int>, acc: Fraction, at: int) -> Option<
    (Fraction, int),
>
    decreases s.len() - at, 2int,
{
    if 0 <= at < s.len() && (s[at] == '+' || s[at] == '-') {
        match read_product(s, operands, at + 1) {
            Some((v, next)) => match combine(s[at], acc, v) {
                Some(w) => if at < next <= s.len() {
                    read_terms(s, operands, w, next)
                } else {
                    None
                },
                None => None,
            },
            None => None,
        }
    } else {
        Some((acc, at))
    }
}

/// The value of infix text with placeholders, read as ordinary arithmetic:
/// `*` and `/` bind tighter than `+` and `-`, operators of one rank group
/// from the left, parentheses group first, and `[k]` stands for operand `k`.
/// Text that is not of this form, or that divides by zero, has no value.
pub open spec fn text_value(s: Seq<char>, operands: Seq<int>) -> Option<Fraction> {
    match read_sum(s, operands, 0) {
        Some((v, next)) => if next == s.len() {
            Some(v)
        } else {
            None
        },
        None => None,
    }
}

/// The text `t` stands in `s` at the position `at`.
pub open spec fn has_at(s: Seq<char>, at: int, t: Seq<char>) -> bool {
    &&& 0 <= at
    &&& at + t.len() <= s.len()
    &&& forall|k: int| 0 <= k < t.len() ==> s[at + k] == #[trigger] t[k]
}

/// No `*` or `/` follows at `at`, so a product ends there.
pub open spec fn product_ends(s: Seq<char>, at: int) -> bool {
    0 <= at < s.len() ==> s[at] != '*' && s[at] != '/'
}

/// The text of a left operand under `op`.
pub open spec fn left_text(op: char, left: Expr) -> Seq<char> {
    grouped(render_text(left), left_needs_parens(op, left))
}

/// The text of a right operand under `op`.
pub open spec fn right_text(op: char, right: Expr) -> Seq<char> {
    grouped(render_text(right), right_needs_parens(op, right))
}

proof fn lemma_has_at_add(s: Seq<char>, at: int, a: Seq<char>, b: Seq<char>)
    requires
        has_at(s, at, a + b),
    ensures
        has_at(s, at, a),
        has_at(s, at + a.len(), b),
{
    let t = a + b;
    assert forall|k: int| 0 <= k < a.len() implies s[at + k] == #[trigger] a[k] by {
        assert(t[k] == a[k]);
    }
    assert forall|k: int| 0 <= k < b.len() implies s[at + a.len() + k] == #[trigger] b[k] by {
        assert(t[a.len() + k] == b[k]);
    }
}

proof fn lemma_has_at_one(s: Seq<char>, at: int, c: char)
    requires
        has_at(s, at, seq![c]),
    ensures
        0 <= at < s.len(),
        s[at] == c,
{
    assert(seq![c][0] == c);
}

/// Where the parts of the text of an operator node stand.
proof fn lemma_split(s: Seq<char>, at: int, op: char, left: Expr, right: Expr)
    requires
        has_at(s, at, render_text(Expr::Binary(op, Box::new(left), Box::new(right)))),
    ensures
        has_at(s, at, left_text(op, left)),
        0 <= at + left_text(op, left).len() < s.len(),
        s[at + left_text(op, left).len()] == op,
        has_at(s, at + left_text(op, left).len() + 1, right_text(op, right)),
        render_text(Expr::Binary(op, Box::new(left), Box::new(right))).len() == left_text(
            op,
            left,
        ).len() + 1 + right_text(op, right).len(),
{
    let a = left_text(op, left);
    let b = right_text(op, right);
    lemma_has_at_add(s, at, a + seq![op], b);
    lemma_has_at_add(s, at, a, seq![op]);
    lemma_has_at_one(s, at + a.len(), op);
}

/// Where the parts of a text in parentheses stand.
proof fn lemma_split_group(s: Seq<char>, at: int, t: Seq<char>)
    requires
        has_at(s, at, grouped(t, true)),
    ensures
        0 <= at < s.len(),
        s[at] == '(',
        has_at(s, at + 1, t),
        0 <= at + 1 + t.len() < s.len(),
        s[at + 1 + t.len()] == ')',
        grouped(t, true).len() == t.len() + 2,
{
    lemma_has_at_add(s, at, seq!['('] + t, seq![')']);
    lemma_has_at_add(s, at, seq!['('], t);
    lemma_has_at_one(s, at, '(');
    lemma_has_at_one(s, at + 1 + t.len(), ')');
}

proof fn lemma_digit(d: nat)
    requires
        d < 10,
    ensures
        is_digit(digit(d)),
        digit_value(digit(d)) == d,
{
    if d == 0 {
    } else if d == 1 {
    } else if d == 2 {
    } else if d == 3 {
    } else if d == 4 {
    } else if d == 5 {
    } else if d == 6 {
    } else if d == 7 {
    } else if d == 8 {
    } else {
        assert(d == 9);
    }
}

proof fn lemma_decimal_digits(n: nat)
    ensures
        decimal(n).len() >= 1,
        forall|k: int| 0 <= k < decimal(n).len() ==> is_digit(#[trigger] decimal(n)[k]),
    decreases n,
{
    if n < 10 {
        lemma_digit(n);
    } else {
        lemma_decimal_digits(n / 10);
        lemma_digit(n % 10);
    }
}

proof fn lemma_number_decimal(s: Seq<char>, from: int, n: nat)
    requires
        has_at(s, from, decimal(n)),
    ensures
        number(s, from, from + decimal(n).len()) == n,
    decreases n,
{
    let t = decimal(n);
    let to = from + t.len();
    lemma_decimal_digits(n);
    assert(s[from + (t.len() - 1)] == t[t.len() - 1]);
    if n < 10 {
        lemma_digit(n);
        assert(number(s, from, from) == 0);
    } else {
        lemma_digit(n % 10);
        let head = decimal(n / 10);
        assert(t =~= head + seq![digit(n % 10)]);
        lemma_has_at_add(s, from, head, seq![digit(n % 10)]);
        lemma_number_decimal(s, from, n / 10);
    }
}

proof fn lemma_closing(s: Seq<char>, from: int, end: int)
    requires
        0 <= from <= end < s.len(),
        forall|k: int| from <= k < end ==> is_digit(#[trigger] s[k]),
        s[end] == ']',
    ensures
        closing(s, from) == end,
    decreases end - from,
{
    if from < end {
        assert(is_digit(s[from]));
        lemma_closing(s, from + 1, end);
    }
}

/// A placeholder reads as its operand.
proof fn lemma_leaf(s: Seq<char>, operands: Seq<int>, slot: nat, at: int)
    requires
        has_at(s, at, render_text(Expr::Leaf(slot))),
    ensures
        read_atom(s, operands, at) == match value(Expr::Leaf(slot), operands) {
            Some(v) => Some((v, at + render_text(Expr::Leaf(slot)).len())),
            None => None,
        },
        render_text(Expr::Leaf(slot)).len() >= 3,
{
    let d = decimal(slot);
    lemma_decimal_digits(slot);
    lemma_has_at_add(s, at, seq!['['] + d, seq![']']);
    lemma_has_at_add(s, at, seq!['['], d);
    lemma_has_at_one(s, at, '[');
    let end = at + 1 + d.len();
    lemma_has_at_one(s, end, ']');
    assert forall|k: int| at + 1 <= k < end implies is_digit(#[trigger] s[k]) by {
        assert(s[at + 1 + (k - at - 1)] == d[k - at - 1]);
    }
    lemma_closing(s, at + 1, end);
    lemma_number_decimal(s, at + 1, slot);
}

/// Sums regroup: `acc + (x op y)` is `(acc + x) op y` for `+` and `-`.
proof fn lemma_regroup_sum(op: char, acc: Fraction, x: Fraction, y: Fraction)
    requires
        op == '+' || op == '-',
    ensures
        combine(op, combine('+', acc, x).unwrap(), y) == combine(
            '+',
            acc,
            combine(op, x, y).unwrap(),
        ),
{
    let (a, b, c, d, e, f) = (acc.num, acc.den, x.num, x.den, y.num, y.den);
    assert((b * d) * f == b * (d * f)) by (nonlinear_arith);
    assert((a * d + c * b) * f == (a * d) * f + (c * b) * f) by (nonlinear_arith);
    assert((a * d) * f == a * (d * f)) by (nonlinear_arith);
    assert((c * b) * f == (c * f) * b) by (nonlinear_arith);
    assert(e * (b * d) == (e * d) * b) by (nonlinear_arith);
    assert((c * f + e * d) * b == (c * f) * b + (e * d) * b) by (nonlinear_arith);
    assert((c * f - e * d) * b == (c * f) * b - (e * d) * b) by (nonlinear_arith);
}

/// Products regroup: `acc * (x op y)` is `(acc * x) op y` for `*` and `/`.
proof fn lemma_regroup_product(op: char, acc: Fraction, x: Fraction, y: Fraction)
    requires
        op == '*' || op == '/',
    ensures
        combine(op, combine('*', acc, x).unwrap(), y) == match combine(op, x, y) {
            Some(v) => combine('*', acc, v),
            None => None,
        },
{
    let (a, b, c, d, e, f) = (acc.num, acc.den, x.num, x.den, y.num, y.den);
    assert((a * c) * e == a * (c * e)) by (nonlinear_arith);
    assert((b * d) * f == b * (d * f)) by (nonlinear_arith);
    assert((a * c) * f == a * (c * f)) by (nonlinear_arith);
    assert((b * d) * e == b * (d * e)) by (nonlinear_arith);
}

/// Reading on with further terms, from a sum that has a value.
pub open spec fn go_on_terms(
    s: Seq<char>,
    operands: Seq<int>,
    acc: Option<Fraction>,
    at: int,
) -> Option<(Fraction, int)> {
    match acc {
        Some(v) => read_terms(s, operands, v, at),
        None => None,
    }
}

/// Reading on with further factors, from a product that has a value.
pub open spec fn go_on_factors(
    s: Seq<char>,
    operands: Seq<int>,
    acc: Option<Fraction>,
    at: int,
) -> Option<(Fraction, int)> {
    match acc {
        Some(v) => read_factors(s, operands, v, at),
        None => None,
    }
}

/// An expression in parentheses reads as an atom with the value of the
/// expression.
proof fn lemma_group(s: Seq<char>, operands: Seq<int>, e: Expr, at: int)
    requires
        proper(e),
        has_at(s, at, grouped(render_text(e), true)),
    ensures
        read_atom(s, operands, at) == match value(e, operands) {
            Some(v) => Some((v, at + render_text(e).len() + 2)),
            None => None,
        },
        grouped(render_text(e), true).len() == render_text(e).len() + 2,
    decreases e, 2int,
{
    lemma_split_group(s, at, render_text(e));
    lemma_sum_start(s, operands, e, at + 1);
}

/// The text of an expression, read from its start as a sum, gives the
/// value of the expression as the sum so far.
proof fn lemma_sum_start(s: Seq<char>, operands: Seq<int>, e: Expr, at: int)
    requires
        proper(e),
        has_at(s, at, render_text(e)),
        product_ends(s, at + render_text(e).len()),
    ensures
        read_sum(s, operands, at) == go_on_terms(
            s,
            operands,
            value(e, operands),
            at + render_text(e).len(),
        ),
        render_text(e).len() >= 1,
    decreases e, 1int,
{
    match e {
        Expr::Binary(op, left, right) if op == '+' || op == '-' => {
            lemma_split(s, at, op, *left, *right);
            let m = at + render_text(*left).len();
            lemma_sum_start(s, operands, *left, at);
            match value(*left, operands) {
                Some(x) => {
                    lemma_term(s, operands, x, op, *right, m);
                },
                None => {},
            }
        },
        _ => {
            lemma_product_start(s, operands, e, at);
        },
    }
}

/// After a `+` or `-`, the text of a right operand adds or subtracts the
/// value of the operand.
proof fn lemma_term(s: Seq<char>, operands: Seq<int>, acc: Fraction, op: char, r: Expr, at: int)
    requires
        proper(r),
        op == '+' || op == '-',
        0 <= at < s.len(),
        s[at] == op,
        has_at(s, at + 1, right_text(op, r)),
        product_ends(s, at + 1 + right_text(op, r).len()),
    ensures
        read_terms(s, operands, acc, at) == match value(r, operands) {
            Some(v) => go_on_terms(
                s,
                operands,
                combine(op, acc, v),
                at + 1 + right_text(op, r).len(),
            ),
            None => None,
        },
    decreases r, 3int,
{
    match r {
        Expr::Binary(inner, left, right) if inner == '+' || inner == '-' => {
            if op == '+' {
                lemma_split(s, at + 1, inner, *left, *right);
                let m = at + 1 + render_text(*left).len();
                lemma_term(s, operands, acc, '+', *left, at);
                match (value(*left, operands), value(*right, operands)) {
                    (Some(x), Some(y)) => {
                        lemma_term(s, operands, combine('+', acc, x).unwrap(), inner, *right, m);
                        lemma_regroup_sum(inner, acc, x, y);
                    },
                    (Some(x), None) => {
                        lemma_term(s, operands, combine('+', acc, x).unwrap(), inner, *right, m);
                    },
                    _ => {},
                }
            } else {
                lemma_group(s, operands, r, at + 1);
            }
        },
        _ => {
            lemma_product_start(s, operands, r, at + 1);
        },
    }
}

/// The text of an expression that is no sum or difference, read from its
/// start as a product, gives the value of the expression as the product so
/// far.
proof fn lemma_product_start(s: Seq<char>, operands: Seq<int>, e: Expr, at: int)
    requires
        proper(e),
        !additive(e),
        has_at(s, at, render_text(e)),
    ensures
        read_product(s, operands, at) == go_on_factors(
            s,
            operands,
            value(e, operands),
            at + render_text(e).len(),
        ),
        render_text(e).len() >= 1,
    decreases e, 0int,
{
    match e {
        Expr::Leaf(slot) => {
            lemma_leaf(s, operands, slot, at);
        },
        Expr::Binary(op, left, right) => {
            lemma_split(s, at, op, *left, *right);
            let m = at + left_text(op, *left).len();
            if additive(*left) {
                lemma_group(s, operands, *left, at);
            } else {
                lemma_product_start(s, operands, *left, at);
            }
            match value(*left, operands) {
                Some(x) => {
                    lemma_factor(s, operands, x, op, *right, m);
                },
                None => {},
            }
        },
    }
}

/// After a `*` or `/`, the text of a right operand multiplies or divides by
/// the value of the operand.
proof fn lemma_factor(s: Seq<char>, operands: Seq<int>, acc: Fraction, op: char, r: Expr, at: int)
    requires
        proper(r),
        op == '*' || op == '/',
        0 <= at < s.len(),
        s[at] == op,
        has_at(s, at + 1, right_text(op, r)),
    ensures
        read_factors(s, operands, acc, at) == match value(r, operands) {
            Some(v) => go_on_factors(
                s,
                operands,
                combine(op, acc, v),
                at + 1 + right_text(op, r).len(),
            ),
            None => None,
        },
    decreases r, 3int,
{
    match r {
        Expr::Leaf(slot) => {
            lemma_leaf(s, operands, slot, at + 1);
        },
        Expr::Binary(inner, left, right) => {
            if right_needs_parens(op, r) {
                lemma_group(s, operands, r, at + 1);
            } else {
                lemma_split(s, at + 1, inner, *left, *right);
                let m = at + 1 + left_text(inner, *left).len();
                assert(left_text(inner, *left) == right_text('*', *left));
                lemma_factor(s, operands, acc, '*', *left, at);
                match (value(*left, operands), value(*right, operands)) {
                    (Some(x), Some(y)) => {
                        lemma_factor(s, operands, combine('*', acc, x).unwrap(), inner, *right, m);
                        lemma_regroup_product(inner, acc, x, y);
                    },
                    (Some(x), None) => {
                        lemma_factor(s, operands, combine('*', acc, x).unwrap(), inner, *right, m);
                    },
                    _ => {},
                }
            }
        },
    }
}

/// Rendering keeps the value: the text of an expression, read as ordinary
/// arithmetic with each placeholder standing for its operand, has the exact
/// value of the expression, and has none where the expression has none.
pub proof fn lemma_render_keeps_value(e: Expr, operands: Seq<int>)
    requires
        proper(e),
    ensures
        text_value(render_text(e), operands) == value(e, operands),
{
    let s = render_text(e);
    assert(has_at(s, 0, s));
    lemma_sum_start(s, operands, e, 0);
}

/// The expression of a well-formed node has no operator but the four.
pub proof fn lemma_wf_proper(node: &Node)
    requires
        node.wf(),
    ensures
        proper(node@.expr()),
    decreases node,
{
    node.lemma_model();
    match node.value {
        NodeValue::Index(_) => {},
        NodeValue::Operator(_) => {
            lemma_wf_proper(&*node.left->0);
            lemma_wf_proper(&*node.right->0);
        },
    }
}

/// The text of a well-formed node, read as ordinary arithmetic, has the
/// exact value of the node's expression.
pub proof fn lemma_node_text_keeps_value(node: &Node, operands: Seq<int>)
    requires
        node.wf(),
    ensures
        text_value(render_text(node@.expr()), operands) == value(node@.expr(), operands),
{
    lemma_wf_proper(node);
    lemma_render_keeps_value(node@.expr(), operands);
}

} // verus!
