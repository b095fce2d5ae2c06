//! The search seen as a chain of single steps, and the induction that goes
//! with it: what every step keeps holds of every tree the search returns.

use crate::enumerate::{
    candidates, next_id, remaining, search, search_candidates, search_column, search_pairs,
};
use crate::node::Tree;
use vstd::prelude::*;

verus! {

/// The working set that follows `ws` when its trees at `i` and `j` give way
/// to the `c`-th candidate over them.
pub open spec fn step(ws: Seq<Tree>, i: int, j: int, c: int) -> Seq<Tree> {
    remaining(ws, i, j).push(candidates(ws[i], ws[j], next_id(ws))[c])
}

/// Where the tree at position `k` of `remaining(ws, i, j)` stood in `ws`.
pub open spec fn origin(i: int, j: int, k: int) -> int {
    if k < i {
        k
    } else if k + 1 < j {
        k + 1
    } else {
        k + 2
    }
}

/// Taking two trees out of a working set moves the others up.
pub proof fn lemma_remaining(ws: Seq<Tree>, i: int, j: int)
    requires
        0 <= i < j < ws.len(),
    ensures
        remaining(ws, i, j).len() == ws.len() - 2,
        forall|k: int|
            0 <= k < ws.len() - 2 ==> #[trigger] remaining(ws, i, j)[k] == ws[origin(i, j, k)],
{
}

/// Whether the search takes the step `(i, j, c)` from `ws` under the bound
/// `min_index`.
pub open spec fn is_step(ws: Seq<Tree>, min_index: nat, i: int, j: int, c: int) -> bool {
    &&& 0 <= i < j < ws.len()
    &&& min_index <= j
    &&& 0 <= c < candidates(ws[i], ws[j], next_id(ws)).len()
}

/// `inv` holds after every step that starts where it holds; the bound that
/// goes with the new working set is `j - 1`.
pub open spec fn kept_by_steps(inv: spec_fn(Seq<Tree>, nat) -> bool) -> bool {
    forall|ws: Seq<Tree>, min_index: nat, i: int, j: int, c: int|
        #![trigger inv(ws, min_index), step(ws, i, j, c)]
        inv(ws, min_index) && is_step(ws, min_index, i, j, c) ==> inv(
            step(ws, i, j, c),
            (j - 1) as nat,
        )
}

/// Induction over the search: if `inv` holds of the working set the search
/// starts from and every step keeps it, then it holds of each returned tree,
/// taken as a working set of its own, under the bound that is returned.
pub proof fn lemma_search_keeps(
    inv: spec_fn(Seq<Tree>, nat) -> bool,
    ws: Seq<Tree>,
    min_index: nat,
    k: int,
) -> (bound: nat)
    requires
        kept_by_steps(inv),
        inv(ws, min_index),
        0 <= k < search(ws, min_index).len(),
    ensures
        inv(seq![search(ws, min_index)[k]], bound),
    decreases ws.len(), 3int, 0int,
{
    if ws.len() == 1 {
        assert(seq![ws[0]] =~= ws);
        min_index
    } else {
        lemma_pairs_keep(inv, ws, min_index, ws.len() as int, k)
    }
}

proof fn lemma_pairs_keep(
    inv: spec_fn(Seq<Tree>, nat) -> bool,
    ws: Seq<Tree>,
    min_index: nat,
    j_end: int,
    k: int,
) -> (bound: nat)
    requires
        kept_by_steps(inv),
        inv(ws, min_index),
        j_end <= ws.len(),
        0 <= k < search_pairs(ws, min_index, j_end).len(),
    ensures
        inv(seq![search_pairs(ws, min_index, j_end)[k]], bound),
    decreases ws.len(), 2int, j_end,
{
    let earlier = search_pairs(ws, min_index, j_end - 1);
    if k < earlier.len() {
        lemma_pairs_keep(inv, ws, min_index, j_end - 1, k)
    } else {
        lemma_column_keeps(inv, ws, min_index, j_end - 1, j_end - 1, k - earlier.len())
    }
}

proof fn lemma_column_keeps(
    inv: spec_fn(Seq<Tree>, nat) -> bool,
    ws: Seq<Tree>,
    min_index: nat,
    j: int,
    i_end: int,
    k: int,
) -> (bound: nat)
    requires
        kept_by_steps(inv),
        inv(ws, min_index),
        min_index <= j,
        0 <= k < search_column(ws, j, i_end).len(),
    ensures
        inv(seq![search_column(ws, j, i_end)[k]], bound),
    decreases ws.len(), 1int, i_end,
{
    let earlier = search_column(ws, j, i_end - 1);
    if k < earlier.len() {
        lemma_column_keeps(inv, ws, min_index, j, i_end - 1, k)
    } else {
        let found = candidates(ws[i_end - 1], ws[j], next_id(ws));
        lemma_candidates_keep(
            inv,
            ws,
            min_index,
            i_end - 1,
            j,
            found.len() as int,
            k - earlier.len(),
        )
    }
}

proof fn lemma_candidates_keep(
    inv: spec_fn(Seq<Tree>, nat) -> bool,
    ws: Seq<Tree>,
    min_index: nat,
    i: int,
    j: int,
    k_end: int,
    k: int,
) -> (bound: nat)
    requires
        kept_by_steps(inv),
        inv(ws, min_index),
        0 <= i < j < ws.len(),
        min_index <= j,
        0 <= k < search_candidates(
            remaining(ws, i, j),
            candidates(ws[i], ws[j], next_id(ws)),
            (j - 1) as nat,
            k_end,
        ).len(),
    ensures
        inv(
            seq![
                search_candidates(
                    remaining(ws, i, j),
                    candidates(ws[i], ws[j], next_id(ws)),
                    (j - 1) as nat,
                    k_end,
                )[k],
            ],
            bound,
        ),
    decreases ws.len(), 0int, k_end,
{
    let rest = remaining(ws, i, j);
    let found = candidates(ws[i], ws[j], next_id(ws));
    let earlier = search_candidates(rest, found, (j - 1) as nat, k_end - 1);
    if k < earlier.len() {
        lemma_candidates_keep(inv, ws, min_index, i, j, k_end - 1, k)
    } else {
        let next = step(ws, i, j, k_end - 1);
        assert(is_step(ws, min_index, i, j, k_end - 1));
        assert(inv(next, (j - 1) as nat));
        lemma_search_keeps(inv, next, (j - 1) as nat, k - earlier.len())
    }
}

/// The search can reach `tree` from `ws` under the bound `min_index`: `ws`
/// is `tree` alone, or some step leads to a working set from which it can.
pub open spec fn reaches(ws: Seq<Tree>, min_index: nat, tree: Tree) -> bool
    decreases ws.len(),
{
    if ws.len() == 1 {
        ws[0] == tree
    } else {
        exists|i: int, j: int, c: int| #[trigger]
            is_step(ws, min_index, i, j, c) && reaches(step(ws, i, j, c), (j - 1) as nat, tree)
    }
}

/// The search returns only trees that it can reach by steps.
pub proof fn lemma_search_sound(ws: Seq<Tree>, min_index: nat, k: int)
    requires
        0 <= k < search(ws, min_index).len(),
    ensures
        reaches(ws, min_index, search(ws, min_index)[k]),
{
    let inv = |w: Seq<Tree>, b: nat|
        forall|t: Tree| #[trigger] reaches(w, b, t) ==> reaches(ws, min_index, t);
    assert forall|w: Seq<Tree>, m: nat, i: int, j: int, c: int|
        #![trigger inv(w, m), step(w, i, j, c)]
        inv(w, m) && is_step(w, m, i, j, c) implies inv(step(w, i, j, c), (j - 1) as nat) by {
        assert forall|t: Tree| #[trigger]
            reaches(step(w, i, j, c), (j - 1) as nat, t) implies reaches(ws, min_index, t) by {
            assert(reaches(w, m, t));
        }
    }
    let bound = lemma_search_keeps(inv, ws, min_index, k);
    let tree = search(ws, min_index)[k];
    assert(reaches(seq![tree], bound, tree));
}

proof fn lemma_add_contains(a: Seq<Tree>, b: Seq<Tree>, tree: Tree)
    requires
        a.contains(tree) || b.contains(tree),
    ensures
        (a + b).contains(tree),
{
    if a.contains(tree) {
        let k = choose|k: int| 0 <= k < a.len() && a[k] == tree;
        assert((a + b)[k] == tree);
    } else {
        let k = choose|k: int| 0 <= k < b.len() && b[k] == tree;
        assert((a + b)[a.len() + k] == tree);
    }
}

proof fn lemma_candidates_hold(
    rest: Seq<Tree>,
    found: Seq<Tree>,
    min_index: nat,
    k_end: int,
    c: int,
    tree: Tree,
)
    requires
        0 <= c < k_end <= found.len(),
        search(rest.push(found[c]), min_index).contains(tree),
    ensures
        search_candidates(rest, found, min_index, k_end).contains(tree),
    decreases k_end,
{
    if c < k_end - 1 {
        lemma_candidates_hold(rest, found, min_index, k_end - 1, c, tree);
    }
    lemma_add_contains(
        search_candidates(rest, found, min_index, k_end - 1),
        search(rest.push(found[k_end - 1]), min_index),
        tree,
    );
}

proof fn lemma_column_holds(ws: Seq<Tree>, j: int, i_end: int, i: int, tree: Tree)
    requires
        0 <= i < i_end <= j < ws.len(),
        search_candidates(
            remaining(ws, i, j),
            candidates(ws[i], ws[j], next_id(ws)),
            (j - 1) as nat,
            candidates(ws[i], ws[j], next_id(ws)).len() as int,
        ).contains(tree),
    ensures
        search_column(ws, j, i_end).contains(tree),
    decreases i_end,
{
    if i < i_end - 1 {
        lemma_column_holds(ws, j, i_end - 1, i, tree);
    }
    let found = candidates(ws[i_end - 1], ws[j], next_id(ws));
    lemma_add_contains(
        search_column(ws, j, i_end - 1),
        search_candidates(
            remaining(ws, i_end - 1, j),
            found,
            (j - 1) as nat,
            found.len() as int,
        ),
        tree,
    );
}

proof fn lemma_pairs_hold(ws: Seq<Tree>, min_index: nat, j_end: int, j: int, tree: Tree)
    requires
        min_index <= j < j_end,
        search_column(ws, j, j).contains(tree),
    ensures
        search_pairs(ws, min_index, j_end).contains(tree),
    decreases j_end,
{
    if j < j_end - 1 {
        lemma_pairs_hold(ws, min_index, j_end - 1, j, tree);
    }
    lemma_add_contains(
        search_pairs(ws, min_index, j_end - 1),
        search_column(ws, j_end - 1, j_end - 1),
        tree,
    );
}

/// The search returns every tree that it can reach by steps.
pub proof fn lemma_search_complete(ws: Seq<Tree>, min_index: nat, tree: Tree)
    requires
        reaches(ws, min_index, tree),
    ensures
        search(ws, min_index).contains(tree),
    decreases ws.len(),
{
    if ws.len() == 1 {
        assert(search(ws, min_index)[0] == tree);
    } else {
        let (i, j, c) = choose|i: int, j: int, c: int| #[trigger]
            is_step(ws, min_index, i, j, c) && reaches(step(ws, i, j, c), (j - 1) as nat, tree);
        let found = candidates(ws[i], ws[j], next_id(ws));
        lemma_search_complete(step(ws, i, j, c), (j - 1) as nat, tree);
        lemma_candidates_hold(
            remaining(ws, i, j),
            found,
            (j - 1) as nat,
            found.len() as int,
            c,
            tree,
        );
        lemma_column_holds(ws, j, j, i, tree);
        lemma_pairs_hold(ws, min_index, ws.len() as int, j, tree);
    }
}

/// The trees that the search returns are those that it can reach by steps.
pub proof fn lemma_search_reaches(ws: Seq<Tree>, min_index: nat)
    ensures
        forall|tree: Tree| #[trigger]
            search(ws, min_index).contains(tree) <==> reaches(ws, min_index, tree),
{
    let found = search(ws, min_index);
    assert forall|tree: Tree| #[trigger] found.contains(tree) <==> reaches(
        ws,
        min_index,
        tree,
    ) by {
        if found.contains(tree) {
            let k = choose|k: int| 0 <= k < found.len() && found[k] == tree;
            lemma_search_sound(ws, min_index, k);
        }
        if reaches(ws, min_index, tree) {
            lemma_search_complete(ws, min_index, tree);
        }
    }
}

} // verus!
