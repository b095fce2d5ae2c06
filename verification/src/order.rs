//! The order in which the search lines up the trees of a working set, and
//! what follows from it: of the two ways to write the operands of a `+` or
//! `*` node, the search builds one only.

use crate::enumerate::{
    candidates, generated, leaves, lemma_candidate_shape, next_id, remaining, search,
};
use crate::node::{Expr, Tree};
use crate::steps::{
    is_step, kept_by_steps, lemma_remaining, lemma_search_keeps, origin, step,
};
use vstd::prelude::*;

verus! {

/// `+` and `*`, for which the order of the operands does not change the
/// value.
pub open spec fn commutative(op: char) -> bool {
    op == '+' || op == '*'
}

/// The number of operator nodes on the longest way from the root to a leaf.
pub open spec fn height(e: Expr) -> nat
    decreases e,
{
    match e {
        Expr::Leaf(_) => 0,
        Expr::Binary(_, left, right) => if height(*left) < height(*right) {
            height(*right) + 1
        } else {
            height(*left) + 1
        },
    }
}

/// The slot that breaks ties between trees of one height: that of a leaf
/// itself, else that of the higher child, else the larger of the two.
pub open spec fn tip(e: Expr) -> nat
    decreases e,
{
    match e {
        Expr::Leaf(slot) => slot,
        Expr::Binary(_, left, right) => if height(*left) < height(*right) {
            tip(*right)
        } else if height(*right) < height(*left) {
            tip(*left)
        } else if tip(*left) < tip(*right) {
            tip(*right)
        } else {
            tip(*left)
        },
    }
}

/// `a` stands before `b`: it is lower, or as high with the smaller tip.
pub open spec fn before(a: Expr, b: Expr) -> bool {
    height(a) < height(b) || (height(a) == height(b) && tip(a) < tip(b))
}

/// The later of the two children of the operator node `x` stands before
/// `y`.
pub open spec fn child_before(x: Expr, y: Expr) -> bool {
    height(x) <= height(y) || (height(x) == height(y) + 1 && tip(x) < tip(y))
}

/// Under every `+` and `*` node the left operand stands before the right
/// one.
pub open spec fn canonical(e: Expr) -> bool
    decreases e,
{
    match e {
        Expr::Leaf(_) => true,
        Expr::Binary(op, left, right) => {
            &&& canonical(*left)
            &&& canonical(*right)
            &&& commutative(op) ==> before(*left, *right)
        },
    }
}

/// `b` is `a` with the two children of one `+` or `*` node exchanged, and
/// nothing else changed.
pub open spec fn swapped(a: Expr, b: Expr) -> bool
    decreases a,
{
    match (a, b) {
        (Expr::Binary(op, left, right), Expr::Binary(other_op, other_left, other_right)) => {
            &&& op == other_op
            &&& {
                ||| commutative(op) && *left == *other_right && *right == *other_left
                ||| *right == *other_right && swapped(*left, *other_left)
                ||| *left == *other_left && swapped(*right, *other_right)
            }
        },
        _ => false,
    }
}

/// Two canonical expressions never differ by one exchange of the operands
/// of a `+` or `*` node.
pub proof fn lemma_canonical_not_swapped(a: Expr, b: Expr)
    requires
        canonical(a),
        canonical(b),
    ensures
        !swapped(a, b),
    decreases a,
{
    match (a, b) {
        (Expr::Binary(op, left, right), Expr::Binary(other_op, other_left, other_right)) => {
            lemma_canonical_not_swapped(*left, *other_left);
            lemma_canonical_not_swapped(*right, *other_right);
        },
        _ => {},
    }
}

/// What the search keeps of its working set: the trees stand in order, each
/// is canonical, and from the position `min_index` on each tree stands
/// behind the later child of every operator node of the set.
pub open spec fn lined_up(ws: Seq<Tree>, min_index: nat) -> bool {
    &&& forall|a: int, b: int|
        #![trigger ws[a], ws[b]]
        0 <= a < b < ws.len() ==> before(ws[a].expr(), ws[b].expr())
    &&& forall|a: int| 0 <= a < ws.len() ==> canonical((#[trigger] ws[a]).expr())
    &&& forall|k: int, m: int|
        #![trigger ws[k], ws[m]]
        0 <= k < ws.len() && min_index <= m < ws.len() && ws[k] is Op ==> child_before(
            ws[k].expr(),
            ws[m].expr(),
        )
}

/// A step of the search keeps the working set lined up.
pub proof fn lemma_step_lined_up(ws: Seq<Tree>, min_index: nat, i: int, j: int, c: int)
    requires
        lined_up(ws, min_index),
        is_step(ws, min_index, i, j, c),
    ensures
        lined_up(step(ws, i, j, c), (j - 1) as nat),
{
    let rest = remaining(ws, i, j);
    let joined = candidates(ws[i], ws[j], next_id(ws))[c];
    let next = step(ws, i, j, c);
    let low = ws[i].expr();
    let high = ws[j].expr();
    lemma_remaining(ws, i, j);
    assert(before(low, high));
    assert(canonical(low));
    assert(canonical(high));
    lemma_candidate_shape(ws[i], ws[j], next_id(ws), c);
    assert(height(joined.expr()) == height(high) + 1);
    assert(tip(joined.expr()) == tip(high));
    assert(canonical(joined.expr()));
    assert(child_before(ws[j].expr(), ws[j].expr()));
    assert forall|a: int| 0 <= a < next.len() implies canonical((#[trigger] next[a]).expr()) by {
        if a < rest.len() {
            assert(next[a] == ws[origin(i, j, a)]);
        }
    }
    assert forall|a: int, b: int|
        #![trigger next[a], next[b]]
        0 <= a < b < next.len() implies before(next[a].expr(), next[b].expr()) by {
        assert(next[a] == ws[origin(i, j, a)]);
        if b < rest.len() {
            assert(next[b] == ws[origin(i, j, b)]);
        } else {
            assert(ws[origin(i, j, a)] is Op ==> child_before(
                ws[origin(i, j, a)].expr(),
                ws[j].expr(),
            ));
        }
    }
    assert forall|k: int, m: int|
        #![trigger next[k], next[m]]
        0 <= k < next.len() && j - 1 <= m < next.len() && next[k] is Op implies child_before(
        next[k].expr(),
        next[m].expr(),
    ) by {
        if k < rest.len() {
            assert(next[k] == ws[origin(i, j, k)]);
            if m < rest.len() {
                assert(next[m] == ws[origin(i, j, m)]);
            } else {
                assert(child_before(ws[origin(i, j, k)].expr(), ws[j].expr()));
            }
        } else {
            if m < rest.len() {
                assert(next[m] == ws[origin(i, j, m)]);
                assert(before(ws[j].expr(), ws[origin(i, j, m)].expr()));
            }
        }
    }
}

/// Every tree that the search returns from a lined-up working set is
/// canonical.
pub proof fn lemma_search_canonical(ws: Seq<Tree>, min_index: nat, k: int)
    requires
        lined_up(ws, min_index),
        0 <= k < search(ws, min_index).len(),
    ensures
        canonical(search(ws, min_index)[k].expr()),
{
    let inv = |w: Seq<Tree>, b: nat| lined_up(w, b);
    assert forall|w: Seq<Tree>, m: nat, i: int, j: int, c: int|
        #![trigger inv(w, m), step(w, i, j, c)]
        inv(w, m) && is_step(w, m, i, j, c) implies inv(step(w, i, j, c), (j - 1) as nat) by {
        lemma_step_lined_up(w, m, i, j, c);
    }
    assert(kept_by_steps(inv));
    let bound = lemma_search_keeps(inv, ws, min_index, k);
    let tree = search(ws, min_index)[k];
    assert(seq![tree][0] == tree);
}

/// Every tree generated over the slots `0..count` is canonical.
pub proof fn lemma_generated_canonical(count: nat, k: int)
    requires
        0 <= k < generated(count).len(),
    ensures
        canonical(generated(count)[k].expr()),
{
    assert(lined_up(leaves(count), 1));
    lemma_search_canonical(leaves(count), 1, k);
}

/// No two generated trees differ only by the order of the two operands of
/// one `+` or `*` node.
pub proof fn lemma_generated_not_swapped(count: nat, a: int, b: int)
    requires
        0 <= a < generated(count).len(),
        0 <= b < generated(count).len(),
    ensures
        !swapped(generated(count)[a].expr(), generated(count)[b].expr()),
{
    lemma_generated_canonical(count, a);
    lemma_generated_canonical(count, b);
    lemma_canonical_not_swapped(generated(count)[a].expr(), generated(count)[b].expr());
}

} // verus!
