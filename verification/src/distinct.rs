//! The search finds no expression twice: the first node that a chain of
//! steps builds can be told from the tree the chain ends in, so two chains
//! that end in one expression are one chain.

use crate::enumerate::{
    candidates, generated, leaves, lemma_candidate_shape, next_id, remaining, search,
    search_candidates, search_column, search_pairs,
};
use crate::node::{Expr, Tree};
use crate::order::{before, height, lemma_step_lined_up, lined_up};
use crate::slots::{
    lemma_leaves_slots, lemma_step_slots, lemma_two_trees_slots, slot_count, total_slot_count,
};
use crate::steps::{is_step, lemma_remaining, lemma_search_keeps, origin, step};
use vstd::prelude::*;

verus! {

/// `part` is `whole` or stands somewhere below it.
pub open spec fn occurs(part: Expr, whole: Expr) -> bool
    decreases whole,
{
    part == whole || match whole {
        Expr::Leaf(_) => false,
        Expr::Binary(_, left, right) => occurs(part, *left) || occurs(part, *right),
    }
}

proof fn lemma_occurs_height(part: Expr, whole: Expr)
    requires
        occurs(part, whole),
    ensures
        part == whole || height(part) < height(whole),
    decreases whole,
{
    if part != whole {
        match whole {
            Expr::Leaf(_) => {},
            Expr::Binary(_, left, right) => {
                if occurs(part, *left) {
                    lemma_occurs_height(part, *left);
                } else {
                    lemma_occurs_height(part, *right);
                }
            },
        }
    }
}

proof fn lemma_occurs_slots(part: Expr, whole: Expr, slot: nat)
    requires
        occurs(part, whole),
    ensures
        slot_count(part, slot) <= slot_count(whole, slot),
    decreases whole,
{
    if part != whole {
        match whole {
            Expr::Leaf(_) => {},
            Expr::Binary(_, left, right) => {
                if occurs(part, *left) {
                    lemma_occurs_slots(part, *left, slot);
                } else {
                    lemma_occurs_slots(part, *right, slot);
                }
            },
        }
    }
}

proof fn lemma_occurs_chain(a: Expr, b: Expr, c: Expr)
    requires
        occurs(a, b),
        occurs(b, c),
    ensures
        occurs(a, c),
    decreases c,
{
    if b != c {
        match c {
            Expr::Leaf(_) => {},
            Expr::Binary(_, left, right) => {
                if occurs(b, *left) {
                    lemma_occurs_chain(a, b, *left);
                } else {
                    lemma_occurs_chain(a, b, *right);
                }
            },
        }
    }
}

/// Every expression names some slot.
proof fn lemma_some_slot(e: Expr) -> (slot: nat)
    ensures
        slot_count(e, slot) >= 1,
    decreases e,
{
    match e {
        Expr::Leaf(slot) => slot,
        Expr::Binary(_, left, _) => lemma_some_slot(*left),
    }
}

/// No slot is named twice over the whole working set.
pub open spec fn slots_apart(ws: Seq<Tree>) -> bool {
    forall|slot: nat| #[trigger] total_slot_count(ws, slot) <= 1
}

/// How often `e` is the expression of a tree of the sequence.
pub open spec fn occurrences(trees: Seq<Tree>, e: Expr) -> nat
    decreases trees.len(),
{
    if trees.len() == 0 {
        0
    } else {
        occurrences(trees.drop_last(), e) + if trees.last().expr() == e {
            1nat
        } else {
            0nat
        }
    }
}

proof fn lemma_occurrences_add(a: Seq<Tree>, b: Seq<Tree>, e: Expr)
    ensures
        occurrences(a + b, e) == occurrences(a, e) + occurrences(b, e),
    decreases b.len(),
{
    if b.len() == 0 {
        assert(a + b =~= a);
    } else {
        lemma_occurrences_add(a, b.drop_last(), e);
        assert((a + b).drop_last() =~= a + b.drop_last());
    }
}

proof fn lemma_occurrences_at(trees: Seq<Tree>, e: Expr) -> (k: int)
    requires
        occurrences(trees, e) > 0,
    ensures
        0 <= k < trees.len(),
        trees[k].expr() == e,
    decreases trees.len(),
{
    if trees.last().expr() == e {
        trees.len() - 1
    } else {
        lemma_occurrences_at(trees.drop_last(), e)
    }
}

proof fn lemma_occurrences_count(trees: Seq<Tree>, k: int, e: Expr)
    requires
        0 <= k < trees.len(),
        trees[k].expr() == e,
    ensures
        occurrences(trees, e) >= 1,
    decreases trees.len(),
{
    if k < trees.len() - 1 {
        lemma_occurrences_count(trees.drop_last(), k, e);
    }
}

proof fn lemma_occurrences_twice(trees: Seq<Tree>, a: int, b: int, e: Expr)
    requires
        0 <= a < b < trees.len(),
        trees[a].expr() == e,
        trees[b].expr() == e,
    ensures
        occurrences(trees, e) >= 2,
    decreases trees.len(),
{
    if b < trees.len() - 1 {
        lemma_occurrences_twice(trees.drop_last(), a, b, e);
    } else {
        lemma_occurrences_count(trees.drop_last(), a, e);
    }
}

/// `y` stands in some tree of the working set.
pub open spec fn stands_in(ws: Seq<Tree>, y: Expr) -> bool {
    exists|k: int| 0 <= k < ws.len() && occurs(y, (#[trigger] ws[k]).expr())
}

/// Of the operator nodes in the trees of `w` that did not stand in `start`,
/// `first` stands before all others, and it does stand in `w`.
pub open spec fn built_first(start: Seq<Tree>, first: Expr, w: Seq<Tree>) -> bool {
    &&& stands_in(w, first)
    &&& forall|k: int, y: Expr|
        0 <= k < w.len() && #[trigger] occurs(y, w[k].expr()) && y is Binary ==> stands_in(start, y)
            || y == first || before(first, y)
}

/// The expression of the node that the step `(i, j, c)` builds.
pub open spec fn built(ws: Seq<Tree>, i: int, j: int, c: int) -> Expr {
    candidates(ws[i], ws[j], next_id(ws))[c].expr()
}

/// The node that a step builds did not stand in the working set before.
proof fn lemma_built_is_new(ws: Seq<Tree>, min_index: nat, i: int, j: int, c: int)
    requires
        slots_apart(ws),
        is_step(ws, min_index, i, j, c),
    ensures
        !stands_in(ws, built(ws, i, j, c)),
        built(ws, i, j, c) is Binary,
{
    let x = built(ws, i, j, c);
    lemma_candidate_shape(ws[i], ws[j], next_id(ws), c);
    assert(occurs(ws[i].expr(), ws[i].expr()));
    assert(occurs(ws[j].expr(), ws[j].expr()));
    assert(occurs(ws[i].expr(), x));
    assert(occurs(ws[j].expr(), x));
    if stands_in(ws, x) {
        let k = choose|k: int| 0 <= k < ws.len() && occurs(x, (#[trigger] ws[k]).expr());
        let p = if k == i {
            j
        } else {
            i
        };
        lemma_occurs_chain(ws[p].expr(), x, ws[k].expr());
        let slot = lemma_some_slot(ws[p].expr());
        lemma_occurs_slots(ws[p].expr(), ws[k].expr(), slot);
        lemma_two_trees_slots(ws, p, k, slot);
        assert(total_slot_count(ws, slot) <= 1);
    }
}

/// Two steps from one lined-up working set that build the same expression
/// are the same step.
proof fn lemma_same_built(
    ws: Seq<Tree>,
    min_index: nat,
    i: int,
    j: int,
    c: int,
    i2: int,
    j2: int,
    c2: int,
)
    requires
        lined_up(ws, min_index),
        is_step(ws, min_index, i, j, c),
        is_step(ws, min_index, i2, j2, c2),
        built(ws, i, j, c) == built(ws, i2, j2, c2),
    ensures
        i == i2,
        j == j2,
        c == c2,
{
    lemma_candidate_shape(ws[i], ws[j], next_id(ws), c);
    lemma_candidate_shape(ws[i2], ws[j2], next_id(ws), c2);
    if ws[i].expr() == ws[i2].expr() {
        lemma_apart(ws, min_index, i, i2);
    }
    if ws[j].expr() == ws[j2].expr() {
        lemma_apart(ws, min_index, j, j2);
    }
    if ws[i].expr() == ws[j2].expr() {
        lemma_apart(ws, min_index, i, j2);
    }
    if ws[j].expr() == ws[i2].expr() {
        lemma_apart(ws, min_index, j, i2);
    }
    lemma_apart_in_candidates(ws, min_index, i, j, c, c2);
}

/// The candidates over two trees of a lined-up working set have different
/// expressions.
proof fn lemma_apart_in_candidates(
    ws: Seq<Tree>,
    min_index: nat,
    i: int,
    j: int,
    c: int,
    c2: int,
)
    requires
        lined_up(ws, min_index),
        is_step(ws, min_index, i, j, c),
        is_step(ws, min_index, i, j, c2),
        built(ws, i, j, c) == built(ws, i, j, c2),
    ensures
        c == c2,
{
    if ws[i].expr() == ws[j].expr() {
        lemma_apart(ws, min_index, i, j);
    }
}

/// The trees of a lined-up working set have different expressions.
proof fn lemma_apart(ws: Seq<Tree>, min_index: nat, a: int, b: int)
    requires
        lined_up(ws, min_index),
        0 <= a < ws.len(),
        0 <= b < ws.len(),
        ws[a].expr() == ws[b].expr(),
    ensures
        a == b,
{
    if a < b {
        assert(before(ws[a].expr(), ws[b].expr()));
    } else if b < a {
        assert(before(ws[b].expr(), ws[a].expr()));
    }
}

/// Right after the step that builds it, a node is the first one built.
proof fn lemma_built_first_starts(start: Seq<Tree>, min_index: nat, i: int, j: int, c: int)
    requires
        is_step(start, min_index, i, j, c),
    ensures
        built_first(start, built(start, i, j, c), step(start, i, j, c)),
{
    let first = built(start, i, j, c);
    let next = step(start, i, j, c);
    let last = next.len() - 1;
    lemma_remaining(start, i, j);
    lemma_candidate_shape(start[i], start[j], next_id(start), c);
    assert(occurs(first, next[last].expr()));
    assert forall|k: int, y: Expr|
        0 <= k < next.len() && #[trigger] occurs(y, next[k].expr()) && y is Binary implies {
        stands_in(start, y) || y == first || before(first, y)
    } by {
        if k < last {
            assert(next[k] == start[origin(i, j, k)]);
        } else if y != first {
            assert(occurs(y, start[i].expr()) || occurs(y, start[j].expr()));
        }
    }
}

/// A later step keeps the first node built the first.
proof fn lemma_built_first_stays(
    start: Seq<Tree>,
    first: Expr,
    w: Seq<Tree>,
    min_index: nat,
    i: int,
    j: int,
    c: int,
)
    requires
        lined_up(w, min_index),
        built_first(start, first, w),
        is_step(w, min_index, i, j, c),
    ensures
        built_first(start, first, step(w, i, j, c)),
{
    let next = step(w, i, j, c);
    let last = next.len() - 1;
    let joined = next[last].expr();
    lemma_remaining(w, i, j);
    lemma_candidate_shape(w[i], w[j], next_id(w), c);
    lemma_step_lined_up(w, min_index, i, j, c);
    let at = choose|k: int| 0 <= k < w.len() && occurs(first, (#[trigger] w[k]).expr());
    lemma_occurs_height(first, w[at].expr());
    assert(occurs(w[i].expr(), w[i].expr()));
    assert(occurs(w[j].expr(), w[j].expr()));
    if at == i || at == j {
        lemma_occurs_chain(first, w[at].expr(), joined);
        assert(occurs(first, next[last].expr()));
        assert(before(first, joined));
    } else {
        let moved = if at < i {
            at
        } else if at < j {
            at - 1
        } else {
            at - 2
        };
        assert(next[moved] == w[origin(i, j, moved)]);
        assert(occurs(first, next[moved].expr()));
        assert(before(next[moved].expr(), next[last].expr()));
        assert(before(first, joined));
    }
    assert forall|k: int, y: Expr|
        0 <= k < next.len() && #[trigger] occurs(y, next[k].expr()) && y is Binary implies {
        stands_in(start, y) || y == first || before(first, y)
    } by {
        if k < last {
            assert(next[k] == w[origin(i, j, k)]);
            assert(occurs(y, w[origin(i, j, k)].expr()));
        } else if y != joined {
            assert(occurs(y, w[i].expr()) || occurs(y, w[j].expr()));
        }
    }
}

/// Every tree that the search finds through the step `(i, j, c)` has the
/// node that this step builds as the first one built.
proof fn lemma_found_through(ws: Seq<Tree>, min_index: nat, i: int, j: int, c: int, k: int)
    requires
        lined_up(ws, min_index),
        is_step(ws, min_index, i, j, c),
        0 <= k < search(step(ws, i, j, c), (j - 1) as nat).len(),
    ensures
        built_first(
            ws,
            built(ws, i, j, c),
            seq![search(step(ws, i, j, c), (j - 1) as nat)[k]],
        ),
{
    let first = built(ws, i, j, c);
    let inv = |w: Seq<Tree>, b: nat| lined_up(w, b) && built_first(ws, first, w);
    assert forall|w: Seq<Tree>, m: nat, i2: int, j2: int, c2: int|
        #![trigger inv(w, m), step(w, i2, j2, c2)]
        inv(w, m) && is_step(w, m, i2, j2, c2) implies inv(
        step(w, i2, j2, c2),
        (j2 - 1) as nat,
    ) by {
        lemma_step_lined_up(w, m, i2, j2, c2);
        lemma_built_first_stays(ws, first, w, m, i2, j2, c2);
    }
    lemma_step_lined_up(ws, min_index, i, j, c);
    lemma_built_first_starts(ws, min_index, i, j, c);
    let bound = lemma_search_keeps(inv, step(ws, i, j, c), (j - 1) as nat, k);
}

/// Two trees with one expression have the same first node built.
proof fn lemma_first_is_one(start: Seq<Tree>, first: Expr, other: Expr, t: Tree, u: Tree)
    requires
        built_first(start, first, seq![t]),
        built_first(start, other, seq![u]),
        t.expr() == u.expr(),
        first is Binary,
        other is Binary,
        !stands_in(start, first),
        !stands_in(start, other),
    ensures
        first == other,
{
    let a = choose|k: int| 0 <= k < seq![t].len() && occurs(first, (#[trigger] seq![t][k]).expr());
    let b = choose|k: int| 0 <= k < seq![u].len() && occurs(other, (#[trigger] seq![u][k]).expr());
    assert(seq![t][0] == t);
    assert(seq![u][0] == u);
    assert(occurs(first, seq![u][0].expr()));
    assert(occurs(other, seq![t][0].expr()));
}

/// The search finds `e` through the step `(i, j, c)`.
pub open spec fn found_through(ws: Seq<Tree>, i: int, j: int, c: int, e: Expr) -> bool {
    occurrences(search(step(ws, i, j, c), (j - 1) as nat), e) > 0
}

/// The search finds an expression through one step at most.
proof fn lemma_one_way(
    ws: Seq<Tree>,
    min_index: nat,
    i: int,
    j: int,
    c: int,
    i2: int,
    j2: int,
    c2: int,
    e: Expr,
)
    requires
        lined_up(ws, min_index),
        slots_apart(ws),
        is_step(ws, min_index, i, j, c),
        is_step(ws, min_index, i2, j2, c2),
        found_through(ws, i, j, c, e),
        found_through(ws, i2, j2, c2, e),
    ensures
        i == i2,
        j == j2,
        c == c2,
{
    let found = search(step(ws, i, j, c), (j - 1) as nat);
    let found2 = search(step(ws, i2, j2, c2), (j2 - 1) as nat);
    let k = lemma_occurrences_at(found, e);
    let k2 = lemma_occurrences_at(found2, e);
    lemma_found_through(ws, min_index, i, j, c, k);
    lemma_found_through(ws, min_index, i2, j2, c2, k2);
    lemma_built_is_new(ws, min_index, i, j, c);
    lemma_built_is_new(ws, min_index, i2, j2, c2);
    lemma_first_is_one(ws, built(ws, i, j, c), built(ws, i2, j2, c2), found[k], found2[k2]);
    lemma_same_built(ws, min_index, i, j, c, i2, j2, c2);
}

/// From a lined-up working set that names no slot twice, the search finds
/// no expression twice.
pub proof fn lemma_search_once(ws: Seq<Tree>, min_index: nat, e: Expr)
    requires
        lined_up(ws, min_index),
        slots_apart(ws),
    ensures
        occurrences(search(ws, min_index), e) <= 1,
    decreases ws.len(), 3int, 0int,
{
    if ws.len() == 1 {
        assert(occurrences(ws.drop_last(), e) == 0);
    } else {
        lemma_pairs_once(ws, min_index, ws.len() as int, e);
    }
}

proof fn lemma_pairs_once(ws: Seq<Tree>, min_index: nat, j_end: int, e: Expr) -> (way: (
    int,
    int,
    int,
))
    requires
        lined_up(ws, min_index),
        slots_apart(ws),
    ensures
        occurrences(search_pairs(ws, min_index, j_end), e) <= 1,
        occurrences(search_pairs(ws, min_index, j_end), e) > 0 ==> {
            &&& is_step(ws, min_index, way.0, way.1, way.2)
            &&& way.1 < j_end
            &&& found_through(ws, way.0, way.1, way.2, e)
        },
    decreases ws.len(), 2int, j_end,
{
    if j_end <= min_index {
        (0, 0, 0)
    } else {
        let j = j_end - 1;
        let earlier = lemma_pairs_once(ws, min_index, j, e);
        let here = lemma_column_once(ws, min_index, j, j, e);
        lemma_occurrences_add(search_pairs(ws, min_index, j), search_column(ws, j, j), e);
        if occurrences(search_pairs(ws, min_index, j), e) > 0 {
            if occurrences(search_column(ws, j, j), e) > 0 {
                lemma_one_way(
                    ws,
                    min_index,
                    earlier.0,
                    earlier.1,
                    earlier.2,
                    here.0,
                    here.1,
                    here.2,
                    e,
                );
            }
            earlier
        } else {
            here
        }
    }
}

proof fn lemma_column_once(ws: Seq<Tree>, min_index: nat, j: int, i_end: int, e: Expr) -> (way: (
    int,
    int,
    int,
))
    requires
        lined_up(ws, min_index),
        slots_apart(ws),
        min_index <= j,
    ensures
        occurrences(search_column(ws, j, i_end), e) <= 1,
        occurrences(search_column(ws, j, i_end), e) > 0 ==> {
            &&& is_step(ws, min_index, way.0, way.1, way.2)
            &&& way.0 < i_end
            &&& way.1 == j
            &&& found_through(ws, way.0, way.1, way.2, e)
        },
    decreases ws.len(), 1int, i_end,
{
    if i_end <= 0 || i_end > j || j >= ws.len() {
        (0, 0, 0)
    } else {
        let i = i_end - 1;
        let found = candidates(ws[i], ws[j], next_id(ws));
        let earlier = lemma_column_once(ws, min_index, j, i, e);
        let c = lemma_candidates_once(ws, min_index, i, j, found.len() as int, e);
        let rest = remaining(ws, i, j);
        let block = search_candidates(rest, found, (j - 1) as nat, found.len() as int);
        lemma_occurrences_add(search_column(ws, j, i), block, e);
        if occurrences(search_column(ws, j, i), e) > 0 {
            if occurrences(block, e) > 0 {
                lemma_one_way(ws, min_index, earlier.0, earlier.1, earlier.2, i, j, c, e);
            }
            earlier
        } else {
            (i, j, c)
        }
    }
}

proof fn lemma_candidates_once(
    ws: Seq<Tree>,
    min_index: nat,
    i: int,
    j: int,
    k_end: int,
    e: Expr,
) -> (c: int)
    requires
        lined_up(ws, min_index),
        slots_apart(ws),
        0 <= i < j < ws.len(),
        min_index <= j,
    ensures
        occurrences(
            search_candidates(
                remaining(ws, i, j),
                candidates(ws[i], ws[j], next_id(ws)),
                (j - 1) as nat,
                k_end,
            ),
            e,
        ) <= 1,
        occurrences(
            search_candidates(
                remaining(ws, i, j),
                candidates(ws[i], ws[j], next_id(ws)),
                (j - 1) as nat,
                k_end,
            ),
            e,
        ) > 0 ==> {
            &&& is_step(ws, min_index, i, j, c)
            &&& c < k_end
            &&& found_through(ws, i, j, c, e)
        },
    decreases ws.len(), 0int, k_end,
{
    let rest = remaining(ws, i, j);
    let found = candidates(ws[i], ws[j], next_id(ws));
    if k_end <= 0 || k_end > found.len() {
        0
    } else {
        let last = k_end - 1;
        let next = step(ws, i, j, last);
        let earlier = lemma_candidates_once(ws, min_index, i, j, last, e);
        lemma_step_lined_up(ws, min_index, i, j, last);
        assert forall|slot: nat| #[trigger] total_slot_count(next, slot) <= 1 by {
            lemma_step_slots(ws, min_index, i, j, last, slot);
        }
        lemma_search_once(next, (j - 1) as nat, e);
        lemma_occurrences_add(
            search_candidates(rest, found, (j - 1) as nat, last),
            search(next, (j - 1) as nat),
            e,
        );
        if occurrences(search_candidates(rest, found, (j - 1) as nat, last), e) > 0 {
            if found_through(ws, i, j, last, e) {
                lemma_one_way(ws, min_index, i, j, earlier, i, j, last, e);
            }
            earlier
        } else {
            last
        }
    }
}

/// From a lined-up working set that names no slot twice, the search
/// returns trees whose expressions all differ.
pub proof fn lemma_search_distinct(ws: Seq<Tree>, min_index: nat, a: int, b: int)
    requires
        lined_up(ws, min_index),
        slots_apart(ws),
        0 <= a < b < search(ws, min_index).len(),
    ensures
        search(ws, min_index)[a].expr() != search(ws, min_index)[b].expr(),
{
    let e = search(ws, min_index)[a].expr();
    lemma_search_once(ws, min_index, e);
    if search(ws, min_index)[b].expr() == e {
        lemma_occurrences_twice(search(ws, min_index), a, b, e);
    }
}

/// The trees generated over the slots `0..count` have expressions that all
/// differ.
pub proof fn lemma_generated_distinct(count: nat, a: int, b: int)
    requires
        0 <= a < b < generated(count).len(),
    ensures
        generated(count)[a].expr() != generated(count)[b].expr(),
{
    assert forall|slot: nat| #[trigger] total_slot_count(leaves(count), slot) <= 1 by {
        lemma_leaves_slots(count, slot);
    }
    assert(lined_up(leaves(count), 1));
    lemma_search_distinct(leaves(count), 1, a, b);
}

} // verus!
