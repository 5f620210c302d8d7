//! Small trees over `i32` with known contents, for trying the library out.

use crate::tree::Node;
use vstd::prelude::*;

verus! {

/// Three trees rooted at 50, and the in-order values of the largest.
pub struct Utils {
    /// 50 alone.
    pub root_base: Node<i32>,
    /// 50 with 25 to its left.
    pub unbalanced_tree_base: Node<i32>,
    /// 50 with 25 to its left and 75 to its right.
    pub balanced_tree_base: Node<i32>,
    /// 25, 50, 75.
    pub vec_base: Vec<i32>,
}

impl Utils {
    /// Builds the samples.
    pub fn new() -> (samples: Utils)
        ensures
            samples.root_base == Node::leaf(50i32),
            samples.unbalanced_tree_base == (Node {
                value: 50i32,
                left: Some(Box::new(Node::leaf(25i32))),
                right: None,
            }),
            samples.balanced_tree_base == (Node {
                value: 50i32,
                left: Some(Box::new(Node::leaf(25i32))),
                right: Some(Box::new(Node::leaf(75i32))),
            }),
            samples.vec_base@ == seq![25i32, 50i32, 75i32],
            samples.vec_base@ == samples.balanced_tree_base.inorder(),
    {
        let samples = Utils {
            root_base: Node::new(50),
            unbalanced_tree_base: Node::new(50).set_left(25),
            balanced_tree_base: Node::new(50).set_left(25).set_right(75),
            vec_base: vec![25, 50, 75],
        };
        assert(samples.balanced_tree_base.inorder() =~= seq![25i32, 50i32, 75i32]) by {
            reveal_with_fuel(Node::inorder, 3);
            reveal_with_fuel(Node::inorder_of, 3);
        }
        samples
    }
}

} // verus!
