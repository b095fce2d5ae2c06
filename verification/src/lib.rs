//! Enumeration, rendering and selection of arithmetic expression trees.
//!
//! Given a number of operand slots, the library builds every distinct binary
//! tree that joins all slots with `+`, `-`, `*` and `/`, renders a tree as
//! infix text with as few parentheses as precedence allows, and keeps of a
//! list of trees those that a caller has marked.
//!
//! - [`node`]: the nodes, their well-formedness and the trees they stand for.
//! - [`render`]: the infix text of a tree.
//! - [`enumerate`]: candidate operator nodes, the search, and the selection.
//! - [`steps`]: the search as a chain of steps, with its induction.
//! - [`slots`]: every tree found names each slot of the start exactly once.
//! - [`order`]: of two operand orders of a `+` or `*` node only one is found.
//! - [`distinct`]: no expression is found twice.
//! - [`reading`]: rendered text, read as ordinary arithmetic, keeps the exact
//!   value of the tree.

pub mod distinct;
pub mod enumerate;
pub mod node;
pub mod order;
pub mod reading;
pub mod render;
pub mod slots;
pub mod steps;
