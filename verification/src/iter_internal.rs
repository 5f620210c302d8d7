//! The borrowing iterator: it holds references into a tree that stays where it
//! is, and hands out references to the values, smallest first.

use crate::iter::{
    left_spine, left_spine_of, lemma_pending_seeded, lemma_pending_step, lemma_reach_covers_length,
    lemma_reach_seeded, lemma_reach_step, pending, reach,
};
use crate::tree::{values_of, Node};
use vstd::prelude::*;

verus! {

/// The nodes that a sequence of references points to.
pub open spec fn nodes_of<T>(refs: Seq<&Node<T>>) -> Seq<Node<T>> {
    refs.map_values(|node: &Node<T>| *node)
}

/// An in-order traversal in progress over a tree that somebody else owns.
pub struct NodeIterator<'a, T> {
    branch_stack: Vec<&'a Node<T>>,
}

impl<'a, T> View for NodeIterator<'a, T> {
    type V = Seq<T>;

    /// The values that are still to come, in the order in which they come:
    /// what the stack of pending nodes has yet to yield.
    open spec fn view(&self) -> Seq<T> {
        pending(self.stack())
    }
}

impl<'a, T> NodeIterator<'a, T> {
    /// The stack of pending nodes, the bottom first and the top last: the
    /// nodes of the tree that the iterator's references point to.
    pub closed spec fn stack(&self) -> Seq<Node<T>> {
        nodes_of(self.branch_stack@)
    }

    /// The number of nodes that wait on the stack.
    pub open spec fn stack_depth(&self) -> nat {
        self.stack().len()
    }

    /// What the stack's length stays within from here on.
    pub open spec fn depth_bound(&self) -> nat {
        reach(self.stack())
    }

    /// The stack is within its bound.
    pub proof fn lemma_stack_within_bound(&self)
        ensures
            self.stack_depth() <= self.depth_bound(),
    {
        lemma_reach_covers_length(self.stack());
    }

    /// The iterator over `root` and everything below it. Its stack starts as
    /// `root` and the chain of left children below it, the deepest on top, and
    /// never holds more than one node for each level of the tree.
    pub fn new(root: &'a Node<T>) -> (iter: NodeIterator<'a, T>)
        ensures
            iter.stack() == left_spine(*root),
            iter@ == root.inorder(),
            iter.depth_bound() <= root.height() + 1,
    {
        let mut iter = NodeIterator { branch_stack: Vec::new() };
        iter.add_left_branches(root);
        assert(iter.stack() =~= left_spine(*root));
        iter
    }

    /// Seeds the stack with `root`: pushes it and the chain of left children
    /// below it, the deepest last, so that all of `root`'s tree comes before
    /// what was pending.
    fn add_left_branches(&mut self, root: &'a Node<T>)
        ensures
            final(self).stack() == old(self).stack() + left_spine(*root),
            final(self)@ == root.inorder() + old(self)@,
            final(self).depth_bound() <= old(self).depth_bound() || final(self).depth_bound() <= old(
                self,
            ).stack_depth() + 1 + root.height(),
    {
        let ghost before = nodes_of(self.branch_stack@);
        let mut node: &'a Node<T> = root;
        self.branch_stack.push(node);
        assert(nodes_of(self.branch_stack@) + left_spine_of(node.left) =~= before + left_spine(
            *root,
        ));
        loop
            invariant
                nodes_of(self.branch_stack@) + left_spine_of(node.left) == before + left_spine(
                    *root,
                ),
            ensures
                nodes_of(self.branch_stack@) == before + left_spine(*root),
            decreases node,
        {
            let ghost pushed = nodes_of(self.branch_stack@);
            match &node.left {
                Some(left_branch) => {
                    node = &**left_branch;
                    self.branch_stack.push(node);
                    assert(nodes_of(self.branch_stack@) + left_spine_of(node.left) =~= pushed
                        + left_spine(*node));
                },
                None => {
                    assert(pushed + left_spine_of(node.left) =~= pushed);
                    break ;
                },
            }
        }
        proof {
            lemma_pending_seeded(before, *root);
            lemma_reach_seeded(before, *root);
        }
    }

    /// A reference to the next value in ascending order, or `None` once every
    /// value has been handed out. The value is that of the node on top of the
    /// stack, which is popped; the chain of left children that starts at its
    /// right child takes its place. The stack's bound does not grow.
    pub fn next(&mut self) -> (item: Option<&'a T>)
        ensures
            match item {
                Some(value) => {
                    &&& old(self).stack().len() > 0
                    &&& *value == old(self).stack().last().value
                    &&& final(self).stack() == old(self).stack().drop_last() + left_spine_of(
                        old(self).stack().last().right,
                    )
                },
                None => old(self).stack().len() == 0 && final(self).stack() == old(self).stack(),
            },
            match item {
                Some(value) => old(self)@.len() > 0 && *value == old(self)@[0] && final(self)@
                    == old(self)@.skip(1),
                None => old(self)@.len() == 0 && final(self)@ == old(self)@,
            },
            final(self).depth_bound() <= old(self).depth_bound(),
    {
        let ghost stack = nodes_of(self.branch_stack@);
        match self.branch_stack.pop() {
            Some(node) => {
                proof {
                    lemma_pending_step(stack);
                    lemma_reach_step(stack);
                    assert(nodes_of(self.branch_stack@) =~= stack.drop_last());
                }
                match &node.right {
                    Some(right_branch) => self.add_left_branches(&**right_branch),
                    None => {
                        assert(stack.drop_last() + left_spine_of(node.right) =~= stack.drop_last());
                    },
                }
                Some(&node.value)
            },
            None => None,
        }
    }

    /// Drains the iterator: a reference to every value that was still to come,
    /// in order.
    pub fn collect(self) -> (refs: Vec<&'a T>)
        ensures
            values_of(refs@) == self@,
    {
        let ghost all = self@;
        let mut iter = self;
        let mut refs: Vec<&'a T> = Vec::new();
        assert(values_of(refs@) + iter@ =~= all);
        loop
            invariant
                values_of(refs@) + iter@ == all,
            ensures
                values_of(refs@) == all,
            decreases iter@.len(),
        {
            match iter.next() {
                Some(value) => {
                    let ghost had = values_of(refs@);
                    let ghost left = iter@;
                    refs.push(value);
                    assert(values_of(refs@) =~= had.push(*value));
                    assert(had.push(*value) + left =~= had + (seq![*value] + left));
                    assert(values_of(refs@) + iter@ =~= all);
                },
                None => {
                    assert(values_of(refs@) + iter@ =~= values_of(refs@));
                    break ;
                },
            }
        }
        refs
    }
}

impl<T> Node<T> {
    /// An iterator over references to the values in ascending order. The tree
    /// is only borrowed.
    pub fn iter(&self) -> (iter: NodeIterator<'_, T>)
        ensures
            iter.stack() == left_spine(*self),
            iter@ == self.inorder(),
            iter.depth_bound() <= self.height() + 1,
    {
        NodeIterator::new(self)
    }
}

} // verus!
