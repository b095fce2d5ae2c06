use exprtree::enumerate::{check, dfs, gen_operators, generate, MAX_OPERANDS};
use exprtree::node::{Node, NodeValue};
use std::rc::Rc;

fn leaf(slot: usize) -> Rc<Node> {
    Rc::new(Node::new(NodeValue::Index(slot), slot as u32))
}

fn leaf_with_id(slot: usize, id: u32) -> Rc<Node> {
    Rc::new(Node::new(NodeValue::Index(slot), id))
}

fn op(c: char, left: &Rc<Node>, right: &Rc<Node>, id: u32) -> Rc<Node> {
    Rc::new(Node::new(NodeValue::Operator(c), id).left(left).right(right))
}

fn leaves(count: usize) -> Vec<Rc<Node>> {
    (0..count).map(leaf).collect()
}

fn renders(trees: &Vec<Rc<Node>>) -> Vec<String> {
    trees.iter().map(|t| t.render()).collect()
}

/// The slots of the leaves of a tree, left to right.
fn slots(node: &Node, out: &mut Vec<usize>) {
    match node.value {
        NodeValue::Index(slot) => out.push(slot),
        NodeValue::Operator(_) => {
            slots(node.left.as_ref().unwrap(), out);
            slots(node.right.as_ref().unwrap(), out);
        }
    }
}

/// A tree written out in full, every operator node in parentheses.
fn shape(node: &Node) -> String {
    match node.value {
        NodeValue::Index(slot) => format!("{}", slot),
        NodeValue::Operator(c) => format!(
            "({}{}{})",
            shape(node.left.as_ref().unwrap()),
            c,
            shape(node.right.as_ref().unwrap())
        ),
    }
}

/// The shapes that differ from that of `node` by the order of the operands
/// of one `+` or `*` node.
fn swapped_shapes(node: &Node) -> Vec<String> {
    match node.value {
        NodeValue::Index(_) => Vec::new(),
        NodeValue::Operator(c) => {
            let left = node.left.as_ref().unwrap();
            let right = node.right.as_ref().unwrap();
            let mut out = Vec::new();
            if c == '+' || c == '*' {
                out.push(format!("({}{}{})", shape(right), c, shape(left)));
            }
            for l in swapped_shapes(left) {
                out.push(format!("({}{}{})", l, c, shape(right)));
            }
            for r in swapped_shapes(right) {
                out.push(format!("({}{}{})", shape(left), c, r));
            }
            out
        }
    }
}

#[test]
fn gen_operators_over_two_leaves() {
    let found = gen_operators(&leaf(0), &leaf(1), 2);
    assert_eq!(
        renders(&found),
        vec!["[0]+[1]", "[0]*[1]", "[0]-[1]", "[1]-[0]", "[0]/[1]", "[1]/[0]"]
    );
    for node in &found {
        assert_eq!(node.id, 2);
        assert!(node.well_formed());
    }
}

#[test]
fn gen_operators_shares_its_operands() {
    let a = leaf(0);
    let b = leaf(1);
    let found = gen_operators(&a, &b, 2);
    assert!(Rc::ptr_eq(found[0].left.as_ref().unwrap(), &a));
    assert!(Rc::ptr_eq(found[0].right.as_ref().unwrap(), &b));
    assert!(Rc::ptr_eq(found[3].left.as_ref().unwrap(), &b));
    assert!(Rc::ptr_eq(found[3].right.as_ref().unwrap(), &a));
}

#[test]
fn gen_operators_skips_operator_that_heads_the_left() {
    let sum = op('+', &leaf(1), &leaf(2), 4);
    let found = gen_operators(&sum, &leaf(3), 5);
    assert_eq!(
        renders(&found),
        vec!["([1]+[2])*[3]", "[1]+[2]-[3]", "[3]-([1]+[2])", "([1]+[2])/[3]", "[3]/([1]+[2])"]
    );
    let product = op('*', &leaf(1), &leaf(2), 4);
    let found = gen_operators(&product, &leaf(3), 5);
    assert_eq!(
        renders(&found),
        vec!["[1]*[2]+[3]", "[1]*[2]-[3]", "[3]-[1]*[2]", "[1]*[2]/[3]", "[3]/([1]*[2])"]
    );
}

#[test]
fn gen_operators_joins_older_left_with_same_operator_on_the_right() {
    let sum = op('+', &leaf(1), &leaf(2), 4);
    let found = gen_operators(&leaf(0), &sum, 5);
    assert_eq!(
        renders(&found),
        vec![
            "[0]+[1]+[2]",
            "[0]*([1]+[2])",
            "[0]-([1]+[2])",
            "[1]+[2]-[0]",
            "[0]/([1]+[2])",
            "([1]+[2])/[0]"
        ]
    );
    let product = op('*', &leaf(1), &leaf(2), 4);
    let found = gen_operators(&leaf(0), &product, 5);
    assert_eq!(
        renders(&found),
        vec![
            "[0]+[1]*[2]",
            "[0]*[1]*[2]",
            "[0]-[1]*[2]",
            "[1]*[2]-[0]",
            "[0]/([1]*[2])",
            "[1]*[2]/[0]"
        ]
    );
}

#[test]
fn gen_operators_drops_younger_left_with_same_operator_on_the_right() {
    let sum = op('+', &leaf(1), &leaf(2), 4);
    let found = gen_operators(&leaf(3), &sum, 5);
    assert_eq!(
        renders(&found),
        vec!["[3]*([1]+[2])", "[3]-([1]+[2])", "[1]+[2]-[3]", "[3]/([1]+[2])", "([1]+[2])/[3]"]
    );
    let product = op('*', &leaf(1), &leaf(2), 4);
    let found = gen_operators(&leaf(3), &product, 5);
    assert_eq!(
        renders(&found),
        vec!["[3]+[1]*[2]", "[3]-[1]*[2]", "[1]*[2]-[3]", "[3]/([1]*[2])", "[1]*[2]/[3]"]
    );
}

#[test]
fn gen_operators_drops_left_as_old_as_the_inner_left() {
    let sum = op('+', &leaf_with_id(1, 7), &leaf(2), 8);
    let same_age = leaf_with_id(0, 7);
    let found = gen_operators(&same_age, &sum, 9);
    assert_eq!(found.len(), 5);
    assert_eq!(found[0].render(), "[0]*([1]+[2])");
    let older = leaf_with_id(0, 6);
    let found = gen_operators(&older, &sum, 9);
    assert_eq!(found.len(), 6);
    assert_eq!(found[0].render(), "[0]+[1]+[2]");
}

#[test]
fn gen_operators_tests_each_commutative_operator_alone() {
    let product = op('*', &leaf(1), &leaf(2), 4);
    let sum = op('+', &leaf(1), &leaf(2), 4);
    let found = gen_operators(&product, &sum, 5);
    assert_eq!(
        renders(&found),
        vec![
            "[1]*[2]-([1]+[2])",
            "[1]+[2]-[1]*[2]",
            "[1]*[2]/([1]+[2])",
            "([1]+[2])/([1]*[2])"
        ]
    );
}

#[test]
fn dfs_of_one_tree_returns_it() {
    let only = op('-', &leaf(0), &leaf(1), 2);
    let found = dfs(vec![only.clone()], 1);
    assert_eq!(found.len(), 1);
    assert!(Rc::ptr_eq(&found[0], &only));
    let found = dfs(vec![only.clone()], 0);
    assert_eq!(found.len(), 1);
    assert!(Rc::ptr_eq(&found[0], &only));
    let found = dfs(vec![only.clone()], 5);
    assert_eq!(found.len(), 1);
}

#[test]
fn dfs_of_nothing_returns_nothing() {
    assert!(dfs(Vec::new(), 0).is_empty());
    assert!(dfs(Vec::new(), 1).is_empty());
}

#[test]
fn dfs_of_two_leaves() {
    let expected = vec!["[0]+[1]", "[0]*[1]", "[0]-[1]", "[1]-[0]", "[0]/[1]", "[1]/[0]"];
    assert_eq!(renders(&dfs(leaves(2), 1)), expected);
    assert_eq!(renders(&dfs(leaves(2), 0)), expected);
}

#[test]
fn dfs_bound_beyond_the_last_position_finds_nothing() {
    assert!(dfs(leaves(2), 2).is_empty());
    assert!(dfs(leaves(2), 3).is_empty());
    assert!(dfs(leaves(3), 3).is_empty());
    assert!(dfs(leaves(4), 4).is_empty());
}

#[test]
fn dfs_bound_limits_the_second_position() {
    assert_eq!(dfs(leaves(3), 0).len(), 104);
    assert_eq!(dfs(leaves(3), 1).len(), 104);
    let found = dfs(leaves(3), 2);
    assert_eq!(found.len(), 70);
    assert_eq!(
        renders(&found)[..8].to_vec(),
        vec![
            "[1]*([0]+[2])",
            "[1]-([0]+[2])",
            "[0]+[2]-[1]",
            "[1]/([0]+[2])",
            "([0]+[2])/[1]",
            "[1]+[0]*[2]",
            "[1]-[0]*[2]",
            "[0]*[2]-[1]"
        ]
    );
    assert_eq!(dfs(leaves(4), 2).len(), 2420);
    assert_eq!(dfs(leaves(4), 3).len(), 1226);
}

#[test]
fn dfs_numbers_new_nodes_after_the_last_tree() {
    let start = vec![leaf_with_id(0, 10), leaf_with_id(1, 20), leaf_with_id(2, 30)];
    for root in dfs(start, 1) {
        assert_eq!(root.id, 32);
        let left = root.left.as_ref().unwrap();
        let right = root.right.as_ref().unwrap();
        let inner = if matches!(left.value, NodeValue::Operator(_)) { left } else { right };
        assert_eq!(inner.id, 31);
    }
}

#[test]
fn generate_counts() {
    assert_eq!(generate(0).len(), 0);
    assert_eq!(generate(1).len(), 1);
    assert_eq!(generate(2).len(), 6);
    assert_eq!(generate(3).len(), 104);
    assert_eq!(generate(4).len(), 3012);
}

#[test]
fn generate_one_slot_is_the_leaf() {
    let found = generate(1);
    assert_eq!(renders(&found), vec!["[0]"]);
    assert_eq!(found[0].id, 0);
}

#[test]
fn generate_is_the_search_from_the_leaves() {
    assert_eq!(renders(&generate(3)), renders(&dfs(leaves(3), 1)));
    assert_eq!(renders(&generate(4)), renders(&dfs(leaves(4), 1)));
}

#[test]
fn generate_four_is_stable() {
    let first = generate(4);
    let second = generate(4);
    assert!(!first.is_empty());
    assert_eq!(first.len(), 3012);
    assert_eq!(renders(&first), renders(&second));
    let shapes: Vec<String> = first.iter().map(|t| shape(t)).collect();
    let again: Vec<String> = second.iter().map(|t| shape(t)).collect();
    assert_eq!(shapes, again);
}

#[test]
fn generate_four_order() {
    let found = renders(&generate(4));
    assert_eq!(
        found[..12].to_vec(),
        vec![
            "([0]+[1])*([2]+[3])",
            "[0]+[1]-([2]+[3])",
            "[2]+[3]-([0]+[1])",
            "([0]+[1])/([2]+[3])",
            "([2]+[3])/([0]+[1])",
            "[0]+[1]-[2]*[3]",
            "[2]*[3]-([0]+[1])",
            "([0]+[1])/([2]*[3])",
            "[2]*[3]/([0]+[1])",
            "([0]+[1])*([2]-[3])",
            "[0]+[1]-([2]-[3])",
            "[2]-[3]-([0]+[1])"
        ]
    );
    assert_eq!(
        found[3007..].to_vec(),
        vec![
            "[0]*[3]/[2]/[1]",
            "[0]-[3]/[2]/[1]",
            "[3]/[2]/[1]-[0]",
            "[0]/([3]/[2]/[1])",
            "[3]/[2]/[1]/[0]"
        ]
    );
}

#[test]
fn generate_three_in_full() {
    let found = renders(&generate(3));
    assert_eq!(found.len(), 104);
    assert_eq!(
        found[..6].to_vec(),
        vec![
            "[2]*([0]+[1])",
            "[2]-([0]+[1])",
            "[0]+[1]-[2]",
            "[2]/([0]+[1])",
            "([0]+[1])/[2]",
            "[2]+[0]*[1]"
        ]
    );
    assert_eq!(
        found[68..74].to_vec(),
        vec![
            "[0]+[1]+[2]",
            "[0]*([1]+[2])",
            "[0]-([1]+[2])",
            "[1]+[2]-[0]",
            "[0]/([1]+[2])",
            "([1]+[2])/[0]"
        ]
    );
    assert_eq!(found[103], "[2]/[1]/[0]");
}

#[test]
fn generated_roots_carry_the_last_counter() {
    for root in generate(4) {
        assert_eq!(root.id, 6);
        assert!(root.well_formed());
    }
    for root in generate(2) {
        assert_eq!(root.id, 2);
    }
}

#[test]
fn every_generated_tree_uses_each_slot_once() {
    for count in 1..5usize {
        for root in generate(count) {
            let mut used = Vec::new();
            slots(&root, &mut used);
            used.sort();
            assert_eq!(used, (0..count).collect::<Vec<usize>>());
        }
    }
}

#[test]
fn no_generated_tree_is_another_with_operands_exchanged() {
    for count in 2..5usize {
        let found = generate(count);
        let shapes: std::collections::HashSet<String> = found.iter().map(|t| shape(t)).collect();
        assert_eq!(shapes.len(), found.len());
        for root in &found {
            for other in swapped_shapes(root) {
                assert!(!shapes.contains(&other));
            }
        }
    }
}

#[test]
fn max_operands_is_two_to_the_thirty_first() {
    assert_eq!(MAX_OPERANDS, 0x8000_0000);
}

#[test]
fn check_keeps_the_hits_in_order() {
    let trees = generate(2);
    let hits = vec![false, true, false, true, true, false];
    let kept = check(&trees, &hits);
    assert_eq!(renders(&kept), vec!["[0]*[1]", "[1]-[0]", "[0]/[1]"]);
    assert!(Rc::ptr_eq(&kept[0], &trees[1]));
    assert!(Rc::ptr_eq(&kept[1], &trees[3]));
    assert!(Rc::ptr_eq(&kept[2], &trees[4]));
}

#[test]
fn check_without_hits_keeps_nothing() {
    let trees = generate(2);
    assert!(check(&trees, &vec![false; 6]).is_empty());
    assert!(check(&trees, &Vec::new()).is_empty());
    assert!(check(&Vec::new(), &vec![true, true]).is_empty());
}

#[test]
fn check_with_all_hits_keeps_everything() {
    let trees = generate(3);
    let kept = check(&trees, &vec![true; 104]);
    assert_eq!(renders(&kept), renders(&trees));
}

#[test]
fn check_ignores_marks_without_a_tree_and_trees_without_a_mark() {
    let trees = generate(2);
    let kept = check(&trees, &vec![true, false, true]);
    assert_eq!(renders(&kept), vec!["[0]+[1]", "[0]-[1]"]);
    let kept = check(&trees, &vec![false, false, false, false, false, true, true, true]);
    assert_eq!(renders(&kept), vec!["[1]/[0]"]);
}
