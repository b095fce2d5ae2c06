//! The enumerator: which operator nodes may join two trees, and the search
//! that merges a working set of trees into every distinct complete tree.

use crate::distinct::lemma_generated_distinct;
use crate::node::{all_wf, is_operator, models, Node, NodeValue, Tree};
use crate::order::{lemma_generated_not_swapped, swapped};
use crate::slots::{lemma_generated_uses_each_slot_once, slot_count};
use crate::steps::{lemma_search_reaches, reaches};
use std::rc::Rc;
use vstd::prelude::*;

verus! {

/// The operator node `op(left, right)` with creation counter `id`.
pub open spec fn operator_tree(op: char, left: Tree, right: Tree, id: nat) -> Tree {
    Tree::Op { op, left: Box::new(left), right: Box::new(right), id }
}

/// Whether the commutative operator `op` may join `left` and `right` in this
/// order: `left` is not itself an `op` node, and if `right` is one, `left`
/// was created before the left child of `right`.
pub open spec fn joins(op: char, left: Tree, right: Tree) -> bool {
    &&& !left.has_operator(op)
    &&& (right matches Tree::Op { op: right_op, left: inner, .. } ==> right_op != op || left.id()
        < inner.id())
}

/// The node that a commutative operator contributes: `op(left, right)` where
/// the operands may be joined, and nothing otherwise.
pub open spec fn commutative_candidates(op: char, left: Tree, right: Tree, id: nat) -> Seq<Tree> {
    if joins(op, left, right) {
        seq![operator_tree(op, left, right, id)]
    } else {
        Seq::empty()
    }
}

/// The nodes that a non-commutative operator contributes: both operand
/// orders.
pub open spec fn ordered_candidates(op: char, left: Tree, right: Tree, id: nat) -> Seq<Tree> {
    seq![operator_tree(op, left, right, id), operator_tree(op, right, left, id)]
}

/// Every operator node worth exploring over `left` and `right`, in the order
/// `+`, `*`, `-`, `/`; each new node gets the creation counter `id`.
pub open spec fn candidates(left: Tree, right: Tree, id: nat) -> Seq<Tree> {
    commutative_candidates('+', left, right, id) + commutative_candidates('*', left, right, id)
        + ordered_candidates('-', left, right, id) + ordered_candidates('/', left, right, id)
}

fn operator_node(op: char, left: &Rc<Node>, right: &Rc<Node>, id: u32) -> (node: Rc<Node>)
    requires
        is_operator(op),
        left.wf(),
        right.wf(),
    ensures
        node.wf(),
        node@ == operator_tree(op, left@, right@, id as nat),
{
    Rc::new(Node::new(NodeValue::Operator(op), id).left(left).right(right))
}

fn may_join(op: char, left: &Node, right: &Node) -> (res: bool)
    requires
        left.wf(),
        right.wf(),
    ensures
        res == joins(op, left@, right@),
{
    proof {
        if right.value is Operator {
            right.left->0.lemma_model();
        }
    }
    left.value != NodeValue::Operator(op) && (right.value != NodeValue::Operator(op) || left.id
        < right.left.as_ref().unwrap().id)
}

/// The operator nodes worth exploring over `left` and `right`.
pub fn gen_operators(left: &Rc<Node>, right: &Rc<Node>, id: u32) -> (results: Vec<Rc<Node>>)
    requires
        left.wf(),
        right.wf(),
    ensures
        models(results@) == candidates(left@, right@, id as nat),
        all_wf(results@),
{
    let mut results: Vec<Rc<Node>> = Vec::new();
    if may_join('+', left, right) {
        results.push(operator_node('+', left, right, id));
    }
    if may_join('*', left, right) {
        results.push(operator_node('*', left, right, id));
    }
    results.push(operator_node('-', left, right, id));
    results.push(operator_node('-', right, left, id));
    results.push(operator_node('/', left, right, id));
    results.push(operator_node('/', right, left, id));
    assert(models(results@) =~= candidates(left@, right@, id as nat));
    results
}

/// The working set without its elements at `i` and `j`, order kept.
pub open spec fn remaining(ws: Seq<Tree>, i: int, j: int) -> Seq<Tree>
    recommends
        0 <= i < j < ws.len(),
{
    ws.remove(j).remove(i)
}

/// The creation counter for a node built over the working set `ws`: one more
/// than that of its last tree.
pub open spec fn next_id(ws: Seq<Tree>) -> nat
    recommends
        ws.len() > 0,
{
    ws.last().id() + 1
}

/// Every complete tree that the search reaches from the working set `ws`,
/// in the order in which it reaches them. A working set of one tree is
/// complete. Otherwise every pair of positions `i < j` with `j >= min_index`
/// is taken in turn, by `j` and then by `i`: the two trees are removed, each
/// candidate over them is appended in turn, and the search goes on from
/// there with `j - 1` as the bound. Which trees occur, order aside, is what
/// [`reaches`] says.
pub open spec fn search(ws: Seq<Tree>, min_index: nat) -> Seq<Tree>
    decreases ws.len(), 3int, 0int,
{
    if ws.len() == 1 {
        ws
    } else {
        search_pairs(ws, min_index, ws.len() as int)
    }
}

/// What the search finds through the pairs `(i, j)` with
/// `min_index <= j < j_end`.
pub open spec fn search_pairs(ws: Seq<Tree>, min_index: nat, j_end: int) -> Seq<Tree>
    decreases ws.len(), 2int, j_end,
{
    if j_end <= min_index {
        Seq::empty()
    } else {
        search_pairs(ws, min_index, j_end - 1) + search_column(ws, j_end - 1, j_end - 1)
    }
}

/// What the search finds through the pairs `(i, j)` with `i < i_end`.
pub open spec fn search_column(ws: Seq<Tree>, j: int, i_end: int) -> Seq<Tree>
    decreases ws.len(), 1int, i_end,
{
    if i_end <= 0 || i_end > j || j >= ws.len() {
        Seq::empty()
    } else {
        let i = i_end - 1;
        let found = candidates(ws[i], ws[j], next_id(ws));
        search_column(ws, j, i) + search_candidates(
            remaining(ws, i, j),
            found,
            (j - 1) as nat,
            found.len() as int,
        )
    }
}

/// What the search finds from `rest` extended by each of the first `k_end`
/// trees of `found`.
pub open spec fn search_candidates(
    rest: Seq<Tree>,
    found: Seq<Tree>,
    min_index: nat,
    k_end: int,
) -> Seq<Tree>
    decreases rest.len() + 2, 0int, k_end,
{
    if k_end <= 0 || k_end > found.len() {
        Seq::empty()
    } else {
        search_candidates(rest, found, min_index, k_end - 1) + search(
            rest.push(found[k_end - 1]),
            min_index,
        )
    }
}

/// The creation counters that the search will hand out from `ws` fit in 32
/// bits.
pub open spec fn ids_fit(ws: Seq<Tree>) -> bool {
    ws.len() >= 2 ==> ws.last().id() + ws.len() - 1 <= u32::MAX
}

proof fn lemma_models_push(nodes: Seq<Rc<Node>>, node: Rc<Node>)
    ensures
        models(nodes.push(node)) == models(nodes).push(node@),
{
    assert(models(nodes.push(node)) =~= models(nodes).push(node@));
}

proof fn lemma_models_add(a: Seq<Rc<Node>>, b: Seq<Rc<Node>>)
    ensures
        models(a + b) == models(a) + models(b),
{
    assert(models(a + b) =~= models(a) + models(b));
}

proof fn lemma_models_remaining(nodes: Seq<Rc<Node>>, i: int, j: int)
    requires
        0 <= i < j < nodes.len(),
    ensures
        models(nodes.remove(j).remove(i)) == remaining(models(nodes), i, j),
{
    assert(models(nodes.remove(j).remove(i)) =~= remaining(models(nodes), i, j));
}

/// Every candidate is an operator node with the creation counter asked
/// for, over the two trees in the order given or, for `-` and `/` only, in
/// the other order.
pub proof fn lemma_candidate_shape(left: Tree, right: Tree, id: nat, c: int)
    requires
        0 <= c < candidates(left, right, id).len(),
    ensures
        candidates(left, right, id)[c].id() == id,
        candidates(left, right, id)[c] matches Tree::Op { op, left: l, right: r, .. } && {
            &&& is_operator(op)
            &&& (*l == left && *r == right) || (op != '+' && op != '*' && *l == right && *r == left)
        },
{
}

/// The nodes of `trees` but those at `i` and `j`, order kept.
fn without_pair(trees: &Vec<Rc<Node>>, i: usize, j: usize) -> (rest: Vec<Rc<Node>>)
    requires
        i < j < trees.len(),
    ensures
        rest@ == trees@.remove(j as int).remove(i as int),
{
    let mut rest: Vec<Rc<Node>> = Vec::new();
    let mut k: usize = 0;
    while k < trees.len()
        invariant
            i < j < trees.len(),
            k <= trees.len(),
            k <= i ==> rest@ == trees@.subrange(0, k as int),
            i < k <= j ==> rest@ == trees@.subrange(0, i as int) + trees@.subrange(
                i + 1,
                k as int,
            ),
            j < k ==> rest@ == trees@.subrange(0, i as int) + trees@.subrange(i + 1, j as int)
                + trees@.subrange(j + 1, k as int),
        decreases trees.len() - k,
    {
        if k != i && k != j {
            rest.push(trees[k].clone());
        }
        k += 1;
        proof {
            if k <= i {
                assert(rest@ =~= trees@.subrange(0, k as int));
            } else if k <= j {
                assert(rest@ =~= trees@.subrange(0, i as int) + trees@.subrange(i + 1, k as int));
            } else {
                assert(rest@ =~= trees@.subrange(0, i as int) + trees@.subrange(i + 1, j as int)
                    + trees@.subrange(j + 1, k as int));
            }
        }
    }
    assert(rest@ =~= trees@.remove(j as int).remove(i as int));
    rest
}

/// A copy of `rest` with `node` appended.
fn with_last(rest: &Vec<Rc<Node>>, node: &Rc<Node>) -> (next: Vec<Rc<Node>>)
    ensures
        next@ == rest@.push(*node),
{
    let mut next: Vec<Rc<Node>> = Vec::new();
    let mut k: usize = 0;
    while k < rest.len()
        invariant
            k <= rest.len(),
            next@ == rest@.subrange(0, k as int),
        decreases rest.len() - k,
    {
        next.push(rest[k].clone());
        k += 1;
        assert(next@ =~= rest@.subrange(0, k as int));
    }
    next.push(node.clone());
    assert(next@ =~= rest@.push(*node));
    next
}

/// Merges the working set `trees` into complete trees in every way the
/// search allows, and returns their roots in the order found.
pub fn dfs(trees: Vec<Rc<Node>>, minj: usize) -> (results: Vec<Rc<Node>>)
    requires
        all_wf(trees@),
        ids_fit(models(trees@)),
    ensures
        models(results@) == search(models(trees@), minj as nat),
        all_wf(results@),
        forall|tree: Tree| #[trigger]
            models(results@).contains(tree) <==> reaches(models(trees@), minj as nat, tree),
    decreases trees.len(),
{
    let n = trees.len();
    let ghost ws = models(trees@);
    proof {
        lemma_search_reaches(ws, minj as nat);
    }
    let mut results: Vec<Rc<Node>> = Vec::new();
    if n == 1 {
        results.push(trees[0].clone());
        assert(models(results@) =~= ws);
        return results;
    }
    let mut j = minj;
    while j < n
        invariant
            n == trees.len(),
            n != 1,
            ws == models(trees@),
            all_wf(trees@),
            ids_fit(ws),
            minj <= j,
            j <= n || j == minj,
            models(results@) == search_pairs(ws, minj as nat, j as int),
            all_wf(results@),
        decreases n - j,
    {
        let ghost before = models(results@);
        let mut i: usize = 0;
        while i < j
            invariant
                n == trees.len(),
                ws == models(trees@),
                all_wf(trees@),
                ids_fit(ws),
                i <= j < n,
                models(results@) == before + search_column(ws, j as int, i as int),
                all_wf(results@),
            decreases j - i,
        {
            let ghost column = models(results@);
            let rest = without_pair(&trees, i, j);
            let found = gen_operators(&trees[i], &trees[j], trees[n - 1].id + 1);
            proof {
                lemma_models_remaining(trees@, i as int, j as int);
                trees[n - 1].lemma_model();
            }
            let mut k: usize = 0;
            while k < found.len()
                invariant
                    n == trees.len(),
                    ws.len() == n,
                    all_wf(rest@),
                    all_wf(found@),
                    rest@.len() + 2 == n,
                    i < j < n,
                    n >= 2,
                    models(found@) == candidates(ws[i as int], ws[j as int], next_id(ws)),
                    next_id(ws) + rest@.len() <= u32::MAX,
                    k <= found.len(),
                    models(results@) == column + search_candidates(
                        models(rest@),
                        models(found@),
                        (j - 1) as nat,
                        k as int,
                    ),
                    all_wf(results@),
                decreases found.len() - k,
            {
                let next = with_last(&rest, &found[k]);
                proof {
                    lemma_models_push(rest@, found[k as int]);
                    lemma_candidate_shape(ws[i as int], ws[j as int], next_id(ws), k as int);
                    assert(models(found@)[k as int] == found[k as int]@);
                }
                let mut sub = dfs(next, j - 1);
                proof {
                    lemma_models_add(results@, sub@);
                }
                results.append(&mut sub);
                k += 1;
            }
            proof {
                assert(models(results@) =~= before + search_column(ws, j as int, i + 1));
            }
            i += 1;
        }
        j += 1;
    }
    results
}

/// The most operand slots for which every creation counter fits in 32 bits.
pub const MAX_OPERANDS: usize = 0x8000_0000;

/// The leaves for the slots `0..count`: slot `k` has creation counter `k`.
pub open spec fn leaves(count: nat) -> Seq<Tree> {
    Seq::new(count, |k: int| Tree::Leaf { slot: k as nat, id: k as nat })
}

/// Every tree that the search builds over the slots `0..count`.
pub open spec fn generated(count: nat) -> Seq<Tree> {
    search(leaves(count), 1)
}

/// The search finds at least one tree from a working set that is complete,
/// or whose last position the bound still admits.
pub proof fn lemma_search_nonempty(ws: Seq<Tree>, min_index: nat)
    requires
        ws.len() == 1 || (ws.len() >= 2 && min_index < ws.len()),
    ensures
        search(ws, min_index).len() > 0,
    decreases ws.len(),
{
    if ws.len() >= 2 {
        let j = ws.len() - 1;
        let i = j - 1;
        let found = candidates(ws[i], ws[j], next_id(ws));
        let rest = remaining(ws, i, j);
        let last = found.len() - 1;
        assert(found.len() >= 4);
        lemma_search_nonempty(rest.push(found[last]), (j - 1) as nat);
        assert(search_candidates(rest, found, (j - 1) as nat, found.len() as int).len() > 0);
        assert(search_column(ws, j, j).len() > 0);
        assert(search_pairs(ws, min_index, ws.len() as int).len() > 0);
    }
}

/// Over one slot or more the search builds at least one tree.
pub proof fn lemma_generated_nonempty(count: nat)
    requires
        count >= 1,
    ensures
        generated(count).len() > 0,
{
    lemma_search_nonempty(leaves(count), 1);
}

/// Builds one leaf for each of `count` operand slots and returns the roots
/// of all trees that the search builds over them. Each tree names every slot
/// once, no two trees have the same expression, and none is another with the
/// operands of a `+` or `*` exchanged.
pub fn generate(count: usize) -> (trees: Vec<Rc<Node>>)
    requires
        count <= MAX_OPERANDS,
    ensures
        models(trees@) == generated(count as nat),
        all_wf(trees@),
        count >= 1 ==> trees.len() > 0,
        forall|k: int, slot: nat|
            0 <= k < trees.len() ==> #[trigger] slot_count(trees[k]@.expr(), slot) == if slot
                < count {
                1nat
            } else {
                0nat
            },
        forall|a: int, b: int|
            0 <= a < trees.len() && 0 <= b < trees.len() ==> !#[trigger] swapped(
                trees[a]@.expr(),
                trees[b]@.expr(),
            ),
        forall|a: int, b: int|
            #![trigger trees[a], trees[b]]
            0 <= a < b < trees.len() ==> trees[a]@.expr() != trees[b]@.expr(),
{
    let mut start: Vec<Rc<Node>> = Vec::new();
    let mut k: usize = 0;
    while k < count
        invariant
            count <= MAX_OPERANDS,
            k <= count,
            all_wf(start@),
            models(start@) == leaves(k as nat),
        decreases count - k,
    {
        let leaf = Rc::new(Node::new(NodeValue::Index(k), k as u32));
        proof {
            lemma_models_push(start@, leaf);
        }
        start.push(leaf);
        k += 1;
        assert(models(start@) =~= leaves(k as nat));
    }
    let trees = dfs(start, 1);
    proof {
        let all = generated(count as nat);
        if count >= 1 {
            lemma_generated_nonempty(count as nat);
        }
        assert forall|k: int| 0 <= k < trees.len() implies (#[trigger] trees[k])@ == all[k] by {
            assert(models(trees@)[k] == trees[k]@);
        }
        assert forall|k: int, slot: nat| 0 <= k < trees.len() implies #[trigger] slot_count(
            trees[k]@.expr(),
            slot,
        ) == if slot < count {
            1nat
        } else {
            0nat
        } by {
            lemma_generated_uses_each_slot_once(count as nat, k, slot);
        }
        assert forall|a: int, b: int|
            0 <= a < trees.len() && 0 <= b < trees.len() implies !#[trigger] swapped(
            trees[a]@.expr(),
            trees[b]@.expr(),
        ) by {
            lemma_generated_not_swapped(count as nat, a, b);
        }
        assert forall|a: int, b: int|
            #![trigger trees[a], trees[b]]
            0 <= a < b < trees.len() implies trees[a]@.expr() != trees[b]@.expr() by {
            lemma_generated_distinct(count as nat, a, b);
        }
    }
    trees
}

/// The trees of `trees` whose position is marked in `hits`, order kept. A
/// position beyond the end of `hits` counts as not marked.
pub open spec fn selected(trees: Seq<Rc<Node>>, hits: Seq<bool>) -> Seq<Rc<Node>>
    decreases trees.len(),
{
    if trees.len() == 0 {
        Seq::empty()
    } else {
        let k = trees.len() - 1;
        let earlier = selected(trees.drop_last(), hits);
        if k < hits.len() && hits[k] {
            earlier.push(trees[k])
        } else {
            earlier
        }
    }
}

/// Keeps the expressions that are marked as hits, in their order.
/// `hits[k]` says whether `expressions[k]` evaluated to within tolerance of
/// the target.
pub fn check(expressions: &Vec<Rc<Node>>, hits: &Vec<bool>) -> (results: Vec<Rc<Node>>)
    ensures
        results@ == selected(expressions@, hits@),
{
    let mut results: Vec<Rc<Node>> = Vec::new();
    let mut k: usize = 0;
    while k < expressions.len()
        invariant
            k <= expressions.len(),
            results@ == selected(expressions@.take(k as int), hits@),
        decreases expressions.len() - k,
    {
        assert(expressions@.take(k + 1).drop_last() =~= expressions@.take(k as int));
        if k < hits.len() && hits[k] {
            results.push(expressions[k].clone());
        }
        k += 1;
    }
    assert(expressions@.take(k as int) =~= expressions@);
    results
}

} // verus!
