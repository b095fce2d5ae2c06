use exprtree::enumerate::{check, generate};
use exprtree::node::{Node, NodeValue};
use std::rc::Rc;

/// The value of a tree over the operands, with the division guard: a
/// quotient is taken only of a finite dividend by a normal divisor.
fn value(node: &Node, operands: &[i32]) -> f64 {
    match node.value {
        NodeValue::Index(slot) => operands[slot] as f64,
        NodeValue::Operator(c) => {
            let left = value(node.left.as_ref().unwrap(), operands);
            let right = value(node.right.as_ref().unwrap(), operands);
            match c {
                '+' => left + right,
                '-' => left - right,
                '*' => left * right,
                '/' => {
                    if left.is_finite() && right.is_normal() {
                        left / right
                    } else {
                        f64::NAN
                    }
                }
                _ => panic!("Undefined Operator: {}", c),
            }
        }
    }
}

fn solutions(operands: &[i32], target: i32) -> Vec<Rc<Node>> {
    let trees = generate(operands.len());
    let hits: Vec<bool> = trees
        .iter()
        .map(|t| (target as f64 - value(t, operands)).abs() < 0.01)
        .collect();
    check(&trees, &hits)
}

fn written(node: &Node, operands: &[i32]) -> String {
    let mut text = node.render();
    for (slot, operand) in operands.iter().enumerate() {
        text = text.replace(&format!("[{}]", slot), &operand.to_string());
    }
    text
}

#[test]
fn four_one_eight_seven_makes_twenty_four() {
    let operands = [4, 1, 8, 7];
    let found = solutions(&operands, 24);
    assert!(!found.is_empty());
    let texts: Vec<String> = found.iter().map(|t| written(t, &operands)).collect();
    assert!(texts.contains(&"(8-4)*(7-1)".to_string()));
    assert_eq!(
        texts,
        vec![
            "8*(7-4*1)",
            "8*(7-4/1)",
            "4*8-(1+7)",
            "4*8-1-7",
            "4*8-7-1",
            "(4-8)*(1-7)",
            "(8-4)*(7-1)",
            "(7-4)/(1/8)",
            "8/1*(7-4)",
            "8/(1/(7-4))",
            "8*(7-4)/1",
            "1*8*(7-4)",
            "8*(7-4)/1",
            "4*(1+7)-8",
            "8*(1*7-4)",
            "8*(7/1-4)"
        ]
    );
}

#[test]
fn four_ones_never_make_twenty_four() {
    assert!(solutions(&[1, 1, 1, 1], 24).is_empty());
}

#[test]
fn three_three_eight_eight_needs_a_fraction() {
    let operands = [3, 3, 8, 8];
    let found = solutions(&operands, 24);
    assert!(!found.is_empty());
    let texts: Vec<String> = found.iter().map(|t| written(t, &operands)).collect();
    assert!(texts.contains(&"8/(3-8/3)".to_string()));
    let placeholders: Vec<String> = found.iter().map(|t| t.render()).collect();
    assert_eq!(
        placeholders,
        vec![
            "[3]/([1]-[2]/[0])",
            "[3]/([0]-[2]/[1])",
            "[2]/([1]-[3]/[0])",
            "[2]/([0]-[3]/[1])"
        ]
    );
}

#[test]
fn solutions_come_in_the_order_of_the_enumeration() {
    let operands = [1, 2, 3, 4];
    let trees = generate(4);
    let found = solutions(&operands, 24);
    assert_eq!(found.len(), 28);
    let mut at = 0;
    for tree in &found {
        let text = tree.render();
        while trees[at].render() != text || (24.0 - value(&trees[at], &operands)).abs() >= 0.01 {
            at += 1;
        }
        at += 1;
    }
    assert!(at <= trees.len());
}

#[test]
fn no_solution_divides_by_zero() {
    let operands = [0, 0, 24, 1];
    for tree in solutions(&operands, 24) {
        assert!((24.0 - value(&tree, &operands)).abs() < 0.01);
        assert!(!written(&tree, &operands).contains("/0"));
    }
}

/// Reads infix text as ordinary arithmetic: `*` and `/` before `+` and `-`,
/// equal ranks from the left, `[k]` for operand `k`.
struct Reader<'a> {
    text: &'a [u8],
    at: usize,
    operands: &'a [i32],
}

impl<'a> Reader<'a> {
    fn peek(&self) -> Option<u8> {
        self.text.get(self.at).copied()
    }

    fn atom(&mut self) -> f64 {
        match self.peek() {
            Some(b'[') => {
                self.at += 1;
                let mut slot = 0usize;
                while let Some(c) = self.peek() {
                    if c == b']' {
                        break;
                    }
                    assert!(c.is_ascii_digit());
                    slot = slot * 10 + (c - b'0') as usize;
                    self.at += 1;
                }
                assert_eq!(self.peek(), Some(b']'));
                self.at += 1;
                self.operands[slot] as f64
            }
            Some(b'(') => {
                self.at += 1;
                let inner = self.sum();
                assert_eq!(self.peek(), Some(b')'));
                self.at += 1;
                inner
            }
            other => panic!("unexpected {:?} at {}", other, self.at),
        }
    }

    fn product(&mut self) -> f64 {
        let mut acc = self.atom();
        while let Some(c) = self.peek() {
            if c == b'*' {
                self.at += 1;
                acc = acc * self.atom();
            } else if c == b'/' {
                self.at += 1;
                let divisor = self.atom();
                acc = if acc.is_finite() && divisor.is_normal() { acc / divisor } else { f64::NAN };
            } else {
                break;
            }
        }
        acc
    }

    fn sum(&mut self) -> f64 {
        let mut acc = self.product();
        while let Some(c) = self.peek() {
            if c == b'+' {
                self.at += 1;
                acc = acc + self.product();
            } else if c == b'-' {
                self.at += 1;
                acc = acc - self.product();
            } else {
                break;
            }
        }
        acc
    }
}

fn text_value(text: &str, operands: &[i32]) -> f64 {
    let mut reader = Reader { text: text.as_bytes(), at: 0, operands };
    let result = reader.sum();
    assert_eq!(reader.at, text.len());
    result
}

#[test]
fn rendered_text_evaluates_like_the_tree() {
    let trees = generate(4);
    for operands in [[4, 1, 8, 7], [3, 3, 8, 8], [1, 2, 3, 4], [0, 5, 0, 2], [-3, 7, 2, -9]] {
        for tree in &trees {
            let direct = value(tree, &operands);
            let read = text_value(&tree.render(), &operands);
            if direct.is_nan() {
                assert!(read.is_nan());
            } else {
                assert!((direct - read).abs() < 0.01, "{}", tree.render());
            }
        }
    }
}

#[test]
fn text_without_grouping_reads_differently() {
    let operands = [1, 2, 3];
    assert_eq!(text_value("([0]+[1])*[2]", &operands), 9.0);
    assert_eq!(text_value("[0]+[1]*[2]", &operands), 7.0);
    assert_eq!(text_value("[0]-([1]-[2])", &operands), 2.0);
    assert_eq!(text_value("[0]-[1]-[2]", &operands), -4.0);
    assert_eq!(text_value("[2]/([1]/[0])", &operands), 1.5);
    assert_eq!(text_value("[2]/[1]/[0]", &operands), 1.5);
    assert_eq!(text_value("[1]/([2]/[0])", &[3, 12, 6]), 6.0);
    assert_eq!(text_value("[1]/[2]/[0]", &[3, 12, 6]), 2.0 / 3.0);
}

#[test]
fn division_by_zero_is_never_a_solution() {
    let zero = Rc::new(Node::new(NodeValue::Operator('-'), 4)
        .left(&Rc::new(Node::new(NodeValue::Index(1), 1)))
        .right(&Rc::new(Node::new(NodeValue::Index(2), 2))));
    let quotient = Rc::new(Node::new(NodeValue::Operator('/'), 5)
        .left(&Rc::new(Node::new(NodeValue::Index(0), 0)))
        .right(&zero));
    let operands = [24, 3, 3];
    assert_eq!(value(&zero, &operands), 0.0);
    assert!(value(&quotient, &operands).is_nan());
    let trees = vec![quotient.clone(), zero.clone()];
    for target in [0, 24, i32::MAX, i32::MIN] {
        let hits: Vec<bool> = trees
            .iter()
            .map(|t| (target as f64 - value(t, &operands)).abs() < 0.01)
            .collect();
        let kept = check(&trees, &hits);
        assert!(kept.iter().all(|t| !Rc::ptr_eq(t, &quotient)));
    }
}
