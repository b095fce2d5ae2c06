//! How often a tree names an operand slot: the search neither drops nor
//! repeats a leaf.

use crate::enumerate::{candidates, generated, leaves, lemma_candidate_shape, next_id, search};
use crate::node::{Expr, Tree};
use crate::steps::{is_step, kept_by_steps, lemma_search_keeps, step};
use vstd::prelude::*;

verus! {

/// The number of leaves of `e` that name `slot`.
pub open spec fn slot_count(e: Expr, slot: nat) -> nat
    decreases e,
{
    match e {
        Expr::Leaf(s) => if s == slot {
            1
        } else {
            0
        },
        Expr::Binary(_, left, right) => slot_count(*left, slot) + slot_count(*right, slot),
    }
}

/// The number of leaves that name `slot` over all trees of a working set.
pub open spec fn total_slot_count(ws: Seq<Tree>, slot: nat) -> nat
    decreases ws.len(),
{
    if ws.len() == 0 {
        0
    } else {
        total_slot_count(ws.drop_last(), slot) + slot_count(ws.last().expr(), slot)
    }
}

proof fn lemma_total_push(ws: Seq<Tree>, tree: Tree, slot: nat)
    ensures
        total_slot_count(ws.push(tree), slot) == total_slot_count(ws, slot) + slot_count(
            tree.expr(),
            slot,
        ),
{
    assert(ws.push(tree).drop_last() =~= ws);
}

proof fn lemma_total_remove(ws: Seq<Tree>, at: int, slot: nat)
    requires
        0 <= at < ws.len(),
    ensures
        total_slot_count(ws.remove(at), slot) + slot_count(ws[at].expr(), slot)
            == total_slot_count(ws, slot),
    decreases ws.len(),
{
    if at == ws.len() - 1 {
        assert(ws.remove(at) =~= ws.drop_last());
    } else {
        lemma_total_remove(ws.drop_last(), at, slot);
        assert(ws.remove(at) =~= ws.drop_last().remove(at).push(ws.last()));
        lemma_total_push(ws.drop_last().remove(at), ws.last(), slot);
    }
}

/// The whole working set names a slot at least as often as one of its trees.
proof fn lemma_total_at_least(ws: Seq<Tree>, at: int, slot: nat)
    requires
        0 <= at < ws.len(),
    ensures
        total_slot_count(ws, slot) >= slot_count(ws[at].expr(), slot),
    decreases ws.len(),
{
    if at < ws.len() - 1 {
        lemma_total_at_least(ws.drop_last(), at, slot);
    }
}

/// The whole working set names a slot at least as often as two of its
/// trees together.
pub proof fn lemma_two_trees_slots(ws: Seq<Tree>, p: int, k: int, slot: nat)
    requires
        0 <= p < ws.len(),
        0 <= k < ws.len(),
        p != k,
    ensures
        total_slot_count(ws, slot) >= slot_count(ws[p].expr(), slot) + slot_count(
            ws[k].expr(),
            slot,
        ),
    decreases ws.len(),
{
    let last = ws.len() - 1;
    if p == last {
        lemma_total_at_least(ws.drop_last(), k, slot);
    } else if k == last {
        lemma_total_at_least(ws.drop_last(), p, slot);
    } else {
        lemma_two_trees_slots(ws.drop_last(), p, k, slot);
    }
}

/// A candidate over two trees has the leaves of both.
pub proof fn lemma_candidate_slots(left: Tree, right: Tree, id: nat, c: int, slot: nat)
    requires
        0 <= c < candidates(left, right, id).len(),
    ensures
        slot_count(candidates(left, right, id)[c].expr(), slot) == slot_count(left.expr(), slot)
            + slot_count(right.expr(), slot),
{
    lemma_candidate_shape(left, right, id, c);
}

/// A step of the search keeps the leaves of the working set.
pub proof fn lemma_step_slots(ws: Seq<Tree>, min_index: nat, i: int, j: int, c: int, slot: nat)
    requires
        is_step(ws, min_index, i, j, c),
    ensures
        total_slot_count(step(ws, i, j, c), slot) == total_slot_count(ws, slot),
{
    lemma_total_remove(ws, j, slot);
    lemma_total_remove(ws.remove(j), i, slot);
    lemma_candidate_slots(ws[i], ws[j], next_id(ws), c, slot);
    lemma_total_push(ws.remove(j).remove(i), candidates(ws[i], ws[j], next_id(ws))[c], slot);
}

/// Every tree that the search returns names each slot as often as the whole
/// working set did at the start.
pub proof fn lemma_search_slots(ws: Seq<Tree>, min_index: nat, k: int, slot: nat)
    requires
        0 <= k < search(ws, min_index).len(),
    ensures
        slot_count(search(ws, min_index)[k].expr(), slot) == total_slot_count(ws, slot),
{
    let count = total_slot_count(ws, slot);
    let inv = |w: Seq<Tree>, b: nat| total_slot_count(w, slot) == count;
    assert forall|w: Seq<Tree>, m: nat, i: int, j: int, c: int|
        #![trigger inv(w, m), step(w, i, j, c)]
        inv(w, m) && is_step(w, m, i, j, c) implies inv(step(w, i, j, c), (j - 1) as nat) by {
        lemma_step_slots(w, m, i, j, c, slot);
    }
    assert(kept_by_steps(inv));
    let bound = lemma_search_keeps(inv, ws, min_index, k);
    let tree = search(ws, min_index)[k];
    lemma_total_push(Seq::empty(), tree, slot);
    assert(seq![tree] =~= Seq::<Tree>::empty().push(tree));
}

/// The leaves for the slots `0..count` name each of these slots once.
pub proof fn lemma_leaves_slots(count: nat, slot: nat)
    ensures
        total_slot_count(leaves(count), slot) == if slot < count {
            1nat
        } else {
            0nat
        },
    decreases count,
{
    if count > 0 {
        lemma_leaves_slots((count - 1) as nat, slot);
        assert(leaves(count).drop_last() =~= leaves((count - 1) as nat));
    }
}

/// Every tree generated over the slots `0..count` names each of these slots
/// exactly once, and no other slot.
pub proof fn lemma_generated_uses_each_slot_once(count: nat, k: int, slot: nat)
    requires
        0 <= k < generated(count).len(),
    ensures
        slot_count(generated(count)[k].expr(), slot) == if slot < count {
            1nat
        } else {
            0nat
        },
{
    lemma_search_slots(leaves(count), 1, k, slot);
    lemma_leaves_slots(count, slot);
}

} // verus!
