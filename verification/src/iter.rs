//! The consuming iterator: it owns the tree and hands out the values
//! themselves, smallest first.

use crate::tree::{Node, NodeBox};
use vstd::prelude::*;

verus! {

/// What a stack of pending nodes still has to yield. The node on top (the last
/// one) comes first: its value, then its right subtree in in-order, then what
/// the nodes below it yield. A pending node's left subtree has been dealt with
/// and does not count.
pub open spec fn pending<T>(stack: Seq<Node<T>>) -> Seq<T>
    decreases stack.len(),
{
    if stack.len() == 0 {
        Seq::empty()
    } else {
        seq![stack.last().value] + Node::inorder_of(stack.last().right) + pending(
            stack.drop_last(),
        )
    }
}

/// Pushing a node puts its value and its right subtree in front of what was
/// pending.
pub proof fn lemma_pending_push<T>(stack: Seq<Node<T>>, node: Node<T>)
    ensures
        pending(stack.push(node)) == seq![node.value] + Node::inorder_of(node.right) + pending(
            stack,
        ),
{
    assert(stack.push(node).drop_last() =~= stack);
}

/// The chain from `tree` down its left children, `tree` first: the nodes that
/// seeding the stack with `tree` pushes, in the order in which it pushes them.
pub open spec fn left_spine<T>(tree: Node<T>) -> Seq<Node<T>>
    decreases tree,
{
    seq![tree] + left_spine_of(tree.left)
}

/// The chain that seeding with an optional subtree pushes; nothing for an
/// absent one.
pub open spec fn left_spine_of<T>(slot: NodeBox<T>) -> Seq<Node<T>>
    decreases slot,
{
    match slot {
        Some(child) => left_spine(*child),
        None => Seq::empty(),
    }
}

/// Seeding the stack with a tree puts the whole tree, in in-order, in front
/// of what was pending.
pub proof fn lemma_pending_seeded<T>(stack: Seq<Node<T>>, tree: Node<T>)
    ensures
        pending(stack + left_spine(tree)) == tree.inorder() + pending(stack),
    decreases tree,
{
    lemma_pending_push(stack, tree);
    assert(stack + left_spine(tree) =~= stack.push(tree) + left_spine_of(tree.left));
    match tree.left {
        Some(child) => {
            lemma_pending_seeded(stack.push(tree), *child);
            assert(child.inorder() + pending(stack.push(tree)) =~= tree.inorder() + pending(
                stack,
            ));
        },
        None => {
            assert(stack.push(tree) + left_spine_of(tree.left) =~= stack.push(tree));
            assert(pending(stack.push(tree)) =~= tree.inorder() + pending(stack));
        },
    }
}

/// Seeding the stack with an optional subtree puts that subtree, in in-order,
/// in front of what was pending.
pub proof fn lemma_pending_seeded_of<T>(stack: Seq<Node<T>>, slot: NodeBox<T>)
    ensures
        pending(stack + left_spine_of(slot)) == Node::inorder_of(slot) + pending(stack),
{
    match slot {
        Some(child) => lemma_pending_seeded(stack, *child),
        None => {
            assert(stack + left_spine_of(slot) =~= stack);
            assert(Node::inorder_of(slot) + pending(stack) =~= pending(stack));
        },
    }
}

/// One step of the traversal: popping the top node and seeding the stack with
/// its right subtree takes exactly the first pending value away, which is the
/// popped node's.
pub proof fn lemma_pending_step<T>(stack: Seq<Node<T>>)
    requires
        stack.len() > 0,
    ensures
        pending(stack)[0] == stack.last().value,
        pending(stack.drop_last() + left_spine_of(stack.last().right)) == pending(stack).skip(1),
{
    lemma_pending_seeded_of(stack.drop_last(), stack.last().right);
    assert(pending(stack).skip(1) =~= Node::inorder_of(stack.last().right) + pending(
        stack.drop_last(),
    ));
}

/// The traversal that starts from the seeded stack yields the tree's values in
/// in-order, which is what the eager traversal yields.
pub proof fn lemma_traversal_is_inorder<T>(tree: Node<T>)
    ensures
        pending(left_spine(tree)) == tree.inorder(),
{
    lemma_pending_seeded(Seq::empty(), tree);
    assert(Seq::<Node<T>>::empty() + left_spine(tree) =~= left_spine(tree));
    assert(tree.inorder() + pending(Seq::<Node<T>>::empty()) =~= tree.inorder());
}

/// The seeded stack is at most one longer than the tree is high.
pub proof fn lemma_spine_length<T>(tree: Node<T>)
    ensures
        1 <= left_spine(tree).len() <= tree.height() + 1,
    decreases tree,
{
    match tree.left {
        Some(child) => lemma_spine_length(*child),
        None => {},
    }
}

/// The height of a node's right subtree, 0 where it has none.
pub open spec fn right_height<T>(node: Node<T>) -> nat {
    match node.right {
        Some(child) => child.height(),
        None => 0,
    }
}

/// How long a stack of pending nodes can get from here on: for each node in
/// it, the length that the stack has once that node was popped and its right
/// subtree seeded and walked down to the deepest leaf; and of these the
/// greatest.
pub open spec fn reach<T>(stack: Seq<Node<T>>) -> nat
    decreases stack.len(),
{
    if stack.len() == 0 {
        0
    } else {
        let below = reach(stack.drop_last());
        let here = stack.len() + right_height(stack.last());
        if below >= here {
            below
        } else {
            here
        }
    }
}

/// A child is less high than its parent.
pub proof fn lemma_child_heights<T>(node: Node<T>)
    ensures
        node.left is Some ==> node.left.unwrap().height() < node.height(),
        node.right is Some ==> node.right.unwrap().height() < node.height(),
        right_height(node) <= node.height(),
{
}

/// What pushing a node does to the reach.
pub proof fn lemma_reach_push<T>(stack: Seq<Node<T>>, node: Node<T>)
    ensures
        reach(stack.push(node)) == if reach(stack) >= stack.len() + 1 + right_height(node) {
            reach(stack)
        } else {
            stack.len() + 1 + right_height(node)
        },
{
    assert(stack.push(node).drop_last() =~= stack);
}

/// A stack is never longer than its reach.
pub proof fn lemma_reach_covers_length<T>(stack: Seq<Node<T>>)
    ensures
        stack.len() <= reach(stack),
{
}

/// Seeding the stack with a tree lets it reach, at most, the tree's height
/// and one more above where it stood, if it could not reach further before.
pub proof fn lemma_reach_seeded<T>(stack: Seq<Node<T>>, tree: Node<T>)
    ensures
        reach(stack + left_spine(tree)) <= reach(stack) || reach(stack + left_spine(tree))
            <= stack.len() + 1 + tree.height(),
    decreases tree,
{
    lemma_reach_push(stack, tree);
    lemma_child_heights(tree);
    assert(stack + left_spine(tree) =~= stack.push(tree) + left_spine_of(tree.left));
    match tree.left {
        Some(child) => lemma_reach_seeded(stack.push(tree), *child),
        None => {
            assert(stack.push(tree) + left_spine_of(tree.left) =~= stack.push(tree));
        },
    }
}

/// One step of the traversal does not raise the reach.
pub proof fn lemma_reach_step<T>(stack: Seq<Node<T>>)
    requires
        stack.len() > 0,
    ensures
        reach(stack.drop_last() + left_spine_of(stack.last().right)) <= reach(stack),
{
    match stack.last().right {
        Some(child) => lemma_reach_seeded(stack.drop_last(), *child),
        None => {
            assert(stack.drop_last() + left_spine_of(stack.last().right) =~= stack.drop_last());
        },
    }
}

/// The same nodes, each without its left subtree: what an owning traversal
/// keeps of the nodes it pushes, since it has to take a node's left child away
/// before it can go down into it.
pub open spec fn detached<T>(nodes: Seq<Node<T>>) -> Seq<Node<T>> {
    nodes.map_values(|node: Node<T>| Node { left: None, ..node })
}

/// Taking the left subtrees off pushed nodes changes neither what is pending
/// nor how long the stack can get: a pending node's left subtree does not
/// count.
pub proof fn lemma_detached_counts_the_same<T>(stack: Seq<Node<T>>, nodes: Seq<Node<T>>)
    ensures
        pending(stack + detached(nodes)) == pending(stack + nodes),
        reach(stack + detached(nodes)) == reach(stack + nodes),
    decreases nodes.len(),
{
    if nodes.len() == 0 {
        assert(stack + detached(nodes) =~= stack + nodes);
    } else {
        lemma_detached_counts_the_same(stack, nodes.drop_last());
        assert((stack + detached(nodes)).drop_last() =~= stack + detached(nodes.drop_last()));
        assert((stack + nodes).drop_last() =~= stack + nodes.drop_last());
    }
}

/// An in-order traversal in progress, which has taken the tree over.
pub struct NodeIterator<T> {
    branch_stack: Vec<Node<T>>,
}

impl<T> View for NodeIterator<T> {
    type V = Seq<T>;

    /// The values that are still to come, in the order in which they come:
    /// what the stack of pending nodes has yet to yield.
    open spec fn view(&self) -> Seq<T> {
        pending(self.stack())
    }
}

impl<T> NodeIterator<T> {
    /// The stack of pending nodes, the bottom first and the top last. Each
    /// node on it has had its left subtree taken off.
    pub closed spec fn stack(&self) -> Seq<Node<T>> {
        self.branch_stack@
    }

    /// The number of nodes that wait on the stack.
    pub open spec fn stack_depth(&self) -> nat {
        self.stack().len()
    }

    /// What the stack's length stays within from here on.
    pub open spec fn depth_bound(&self) -> nat {
        reach(self.stack())
    }

    /// The stack is within its bound.
    pub proof fn lemma_stack_within_bound(&self)
        ensures
            self.stack_depth() <= self.depth_bound(),
    {
        lemma_reach_covers_length(self.stack());
    }

    /// The iterator over `root` and everything below it. Its stack starts as
    /// `root` and the chain of left children below it, the deepest on top, and
    /// never holds more than one node for each level of the tree.
    pub fn new(root: Node<T>) -> (iter: NodeIterator<T>)
        ensures
            iter.stack() == detached(left_spine(root)),
            iter@ == root.inorder(),
            iter.depth_bound() <= root.height() + 1,
    {
        let mut iter = NodeIterator { branch_stack: Vec::new() };
        iter.add_left_branches(root);
        assert(iter.stack() =~= detached(left_spine(root)));
        iter
    }

    /// Pushes `root` and the chain of left children below it, the deepest
    /// last, so that all of `root`'s tree comes before what was pending. Each
    /// node goes onto the stack without its left subtree, which the nodes
    /// above it stand for.
    fn add_left_branches(&mut self, root: Node<T>)
        ensures
            final(self).stack() == old(self).stack() + detached(left_spine(root)),
            final(self)@ == root.inorder() + old(self)@,
            final(self).depth_bound() <= old(self).depth_bound() || final(self).depth_bound() <= old(
                self,
            ).stack_depth() + 1 + root.height(),
    {
        let ghost start = self.branch_stack@;
        let mut node = root;
        let mut below = node.left.take();
        self.branch_stack.push(node);
        assert(self.branch_stack@ + detached(left_spine_of(below)) =~= start + detached(
            left_spine(root),
        ));
        while below.is_some()
            invariant
                self.branch_stack@ + detached(left_spine_of(below)) == start + detached(
                    left_spine(root),
                ),
            decreases below,
        {
            let ghost pushed = self.branch_stack@;
            let mut node = *below.unwrap();
            let ghost whole = node;
            below = node.left.take();
            self.branch_stack.push(node);
            assert(self.branch_stack@ + detached(left_spine_of(below)) =~= pushed + detached(
                left_spine(whole),
            ));
        }
        assert(self.branch_stack@ + detached(left_spine_of(below)) =~= self.branch_stack@);
        proof {
            lemma_detached_counts_the_same(start, left_spine(root));
            lemma_pending_seeded(start, root);
            lemma_reach_seeded(start, root);
        }
    }

    /// The next value in ascending order, or `None` once every value has been
    /// handed out. The value is that of the node on top of the stack, which is
    /// popped; the chain of left children that starts at its right child takes
    /// its place. The stack's bound does not grow.
    pub fn next(&mut self) -> (item: Option<T>)
        ensures
            match item {
                Some(value) => {
                    &&& old(self).stack().len() > 0
                    &&& value == old(self).stack().last().value
                    &&& final(self).stack() == old(self).stack().drop_last() + detached(
                        left_spine_of(old(self).stack().last().right),
                    )
                },
                None => old(self).stack().len() == 0 && final(self).stack() == old(self).stack(),
            },
            match item {
                Some(value) => old(self)@.len() > 0 && value == old(self)@[0] && final(self)@
                    == old(self)@.skip(1),
                None => old(self)@.len() == 0 && final(self)@ == old(self)@,
            },
            final(self).depth_bound() <= old(self).depth_bound(),
    {
        let ghost before = self@;
        let ghost stack = self.branch_stack@;
        match self.branch_stack.pop() {
            Some(node) => {
                let ghost rest = self@;
                let Node { value, left: _, right } = node;
                assert(before =~= seq![value] + Node::inorder_of(right) + rest);
                match right {
                    Some(right_branch) => self.add_left_branches(*right_branch),
                    None => {
                        assert(stack.drop_last() + detached(left_spine_of(right))
                            =~= stack.drop_last());
                    },
                }
                assert(self@ =~= before.skip(1));
                Some(value)
            },
            None => None,
        }
    }

    /// Drains the iterator: every value that was still to come, in order.
    pub fn collect(self) -> (values: Vec<T>)
        ensures
            values@ == self@,
    {
        let ghost all = self@;
        let mut iter = self;
        let mut values: Vec<T> = Vec::new();
        loop
            invariant
                values@ + iter@ == all,
            ensures
                values@ == all,
            decreases iter@.len(),
        {
            match iter.next() {
                Some(value) => {
                    let ghost had = values@;
                    let ghost left = iter@;
                    values.push(value);
                    assert(values@ + iter@ =~= all) by {
                        assert(had.push(value) + left =~= had + (seq![value] + left));
                    }
                },
                None => {
                    assert(values@ + iter@ =~= values@);
                    break ;
                },
            }
        }
        values
    }
}

impl<T> Node<T> {
    /// Gives the tree up for an iterator over its values in ascending order.
    pub fn into_iter(self) -> (iter: NodeIterator<T>)
        ensures
            iter.stack() == detached(left_spine(self)),
            iter@ == self.inorder(),
            iter.depth_bound() <= self.height() + 1,
    {
        NodeIterator::new(self)
    }
}

} // verus!
