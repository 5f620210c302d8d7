//! The tree itself: a node owns its value and up to two subtrees.

use crate::laws::{lemma_inserted_has, lemma_inserted_is_bst, lemma_on_path_has};
use crate::order::{is_total_order, lemma_cmp_cases, lt};
use std::cmp::Ordering;
use vstd::prelude::*;
use vstd::std_specs::cmp::OrdSpec;

verus! {

/// The slot for a child: an owned subtree, or nothing.
pub type NodeBox<T> = Option<Box<Node<T>>>;

/// A node of the tree, which is also the tree rooted at it.
#[derive(Debug, Default, PartialEq)]
pub struct Node<T> {
    pub value: T,
    pub left: NodeBox<T>,
    pub right: NodeBox<T>,
}

impl<T> Node<T> {
    /// The tree of one node.
    pub open spec fn leaf(value: T) -> Node<T> {
        Node { value, left: None, right: None }
    }

    /// The values in in-order: left subtree, then the node, then the right subtree.
    pub open spec fn inorder(self) -> Seq<T>
        decreases self,
    {
        Self::inorder_of(self.left).push(self.value) + Self::inorder_of(self.right)
    }

    /// The in-order values of an optional subtree; none for an absent one.
    pub open spec fn inorder_of(slot: NodeBox<T>) -> Seq<T>
        decreases slot,
    {
        match slot {
            Some(child) => child.inorder(),
            None => Seq::empty(),
        }
    }

    /// Whether `v` is stored somewhere in the tree.
    pub open spec fn has(self, v: T) -> bool
        decreases self,
    {
        v == self.value || Self::has_in(self.left, v) || Self::has_in(self.right, v)
    }

    /// Whether `v` is stored in an optional subtree.
    pub open spec fn has_in(slot: NodeBox<T>, v: T) -> bool
        decreases slot,
    {
        match slot {
            Some(child) => child.has(v),
            None => false,
        }
    }

    /// The number of edges on the longest way down from this node to a leaf.
    pub open spec fn height(self) -> nat
        decreases self,
    {
        match (self.left, self.right) {
            (None, None) => 0,
            (Some(l), None) => 1 + l.height(),
            (None, Some(r)) => 1 + r.height(),
            (Some(l), Some(r)) => 1 + if l.height() >= r.height() {
                l.height()
            } else {
                r.height()
            },
        }
    }

    /// A single node with the given value and no children.
    pub fn new(data: T) -> (node: Node<T>)
        ensures
            node == Self::leaf(data),
    {
        Node { value: data, left: None, right: None }
    }

    /// A leaf holding `data`, ready to be put into a child slot.
    pub fn boxer(data: T) -> (slot: NodeBox<T>)
        ensures
            slot == Some(Box::new(Self::leaf(data))),
    {
        Some(Box::new(Self::from(data)))
    }

    /// Replaces the left subtree by a leaf holding `data` and hands the node back.
    pub fn set_left(self, data: T) -> (node: Node<T>)
        ensures
            node == (Node { left: Some(Box::new(Self::leaf(data))), ..self }),
    {
        let mut node = self;
        node.left = Self::boxer(data);
        node
    }

    /// Replaces the right subtree by a leaf holding `data` and hands the node back.
    pub fn set_right(self, data: T) -> (node: Node<T>)
        ensures
            node == (Node { right: Some(Box::new(Self::leaf(data))), ..self }),
    {
        let mut node = self;
        node.right = Self::boxer(data);
        node
    }

    /// Replaces the left subtree by a leaf holding `data`, in place.
    pub fn set_left_no_return(&mut self, data: T)
        ensures
            *final(self) == (Node { left: Some(Box::new(Self::leaf(data))), ..*old(self) }),
    {
        self.left = Self::boxer(data);
    }

    /// Replaces the right subtree by a leaf holding `data`, in place.
    pub fn set_right_no_return(&mut self, data: T)
        ensures
            *final(self) == (Node { right: Some(Box::new(Self::leaf(data))), ..*old(self) }),
    {
        self.right = Self::boxer(data);
    }

    /// The height of the tree: 0 for a leaf, else one more than the height of
    /// its taller subtree.
    pub fn depth(&self) -> (edges: usize)
        requires
            self.height() <= usize::MAX,
        ensures
            edges == self.height(),
        decreases self,
    {
        match (&self.left, &self.right) {
            (None, None) => 0,
            (Some(l), None) => 1 + l.depth(),
            (None, Some(r)) => 1 + r.depth(),
            (Some(l), Some(r)) => {
                let below_left: usize = l.depth();
                let below_right: usize = r.depth();
                if below_left >= below_right {
                    1 + below_left
                } else {
                    1 + below_right
                }
            },
        }
    }

    /// Eager in-order traversal: a reference to every value, those of the left
    /// subtree first, then the node's own, then those of the right subtree.
    pub fn visit(&self) -> (refs: Vec<&T>)
        ensures
            values_of(refs@) == self.inorder(),
        decreases self,
    {
        let mut result: Vec<&T> = Vec::new();
        if let Some(left_child) = &self.left {
            let mut left_vec = left_child.visit();
            result.append(&mut left_vec);
        }
        result.push(&self.value);
        if let Some(right_child) = &self.right {
            let mut right_vec = right_child.visit();
            result.append(&mut right_vec);
        }
        assert(values_of(result@) =~= self.inorder());
        result
    }
}

impl<T> From<T> for Node<T> {
    /// A single node with the given value and no children.
    fn from(val: T) -> (node: Self) {
        Node::new(val)
    }
}

impl<T> vstd::std_specs::convert::FromSpecImpl<T> for Node<T> {
    open spec fn obeys_from_spec() -> bool {
        true
    }

    open spec fn from_spec(val: T) -> Self {
        Node::leaf(val)
    }
}

impl<T: Clone> Node<T> {
    /// Whether `self` can be what cloning `source` gives: the same shape, and
    /// at each node a value that `T`'s `clone` may return for the value there.
    pub open spec fn is_clone_of(self, source: Node<T>) -> bool
        decreases self,
    {
        &&& cloned(source.value, self.value)
        &&& Self::is_clone_in(self.left, source.left)
        &&& Self::is_clone_in(self.right, source.right)
    }

    /// Whether a child slot can be what cloning `source` gives.
    pub open spec fn is_clone_in(slot: NodeBox<T>, source: NodeBox<T>) -> bool
        decreases slot,
    {
        match (slot, source) {
            (Some(copy), Some(child)) => copy.is_clone_of(*child),
            (None, None) => true,
            _ => false,
        }
    }

    /// Clones what a child slot holds.
    fn clone_slot(slot: &NodeBox<T>) -> (copy: NodeBox<T>)
        ensures
            Self::is_clone_in(copy, *slot),
        decreases slot,
    {
        match slot {
            Some(child) => {
                let below: &Node<T> = &**child;
                Some(Box::new(below.clone()))
            },
            None => None,
        }
    }
}

impl<T: Clone> Clone for Node<T> {
    /// A tree of the same shape whose values are clones of this one's.
    fn clone(&self) -> (copy: Self)
        ensures
            copy.is_clone_of(*self),
        decreases self,
    {
        Node {
            value: self.value.clone(),
            left: Self::clone_slot(&self.left),
            right: Self::clone_slot(&self.right),
        }
    }
}

/// The values that a sequence of references points to.
pub open spec fn values_of<T>(refs: Seq<&T>) -> Seq<T> {
    refs.map_values(|r: &T| *r)
}

impl<T: Ord> Node<T> {
    /// The binary-search-tree property: at every node, what the left subtree
    /// stores stands before the node's value, and what the right subtree stores
    /// stands after it.
    pub open spec fn is_bst(self) -> bool
        decreases self,
    {
        &&& forall|v: T| Self::has_in(self.left, v) ==> lt(v, self.value)
        &&& forall|v: T| Self::has_in(self.right, v) ==> lt(self.value, v)
        &&& Self::is_bst_in(self.left)
        &&& Self::is_bst_in(self.right)
    }

    /// The binary-search-tree property of an optional subtree.
    pub open spec fn is_bst_in(slot: NodeBox<T>) -> bool
        decreases slot,
    {
        match slot {
            Some(child) => child.is_bst(),
            None => true,
        }
    }

    /// The tree after `data` was inserted: the same tree if the descent from
    /// the root meets `data`, else the tree with one new leaf where the descent
    /// ran out of children.
    pub open spec fn inserted(self, data: T) -> Node<T>
        decreases self,
    {
        match self.value.cmp_spec(&data) {
            Ordering::Equal => self,
            Ordering::Greater => Node { left: Self::inserted_in(self.left, data), ..self },
            Ordering::Less => Node { right: Self::inserted_in(self.right, data), ..self },
        }
    }

    /// What a child slot holds after `data` was inserted below it.
    pub open spec fn inserted_in(slot: NodeBox<T>, data: T) -> NodeBox<T>
        decreases slot,
    {
        match slot {
            Some(child) => Some(Box::new(child.inserted(data))),
            None => Some(Box::new(Self::leaf(data))),
        }
    }

    /// Whether the descent for `data` meets it: at each node it stops on an
    /// equal value, goes left where `data` stands before the node's value and
    /// right where it stands after, and gives up at an absent child.
    pub open spec fn on_path(self, data: T) -> bool
        decreases self,
    {
        match self.value.cmp_spec(&data) {
            Ordering::Equal => true,
            Ordering::Greater => Self::on_path_in(self.left, data),
            Ordering::Less => Self::on_path_in(self.right, data),
        }
    }

    /// The descent for `data` through an optional subtree.
    pub open spec fn on_path_in(slot: NodeBox<T>, data: T) -> bool
        decreases slot,
    {
        match slot {
            Some(child) => child.on_path(data),
            None => false,
        }
    }

    /// Inserts `data` unless the descent for it meets an equal value: the tree
    /// gets one new leaf where the descent ran out of children, and nothing
    /// else moves. The walk is recursive, one call per node on the way down.
    pub fn insert(&mut self, data: T)
        requires
            is_total_order::<T>(),
        ensures
            *final(self) == old(self).inserted(data),
            old(self).is_bst() ==> final(self).is_bst(),
            forall|v: T| final(self).has(v) <==> old(self).has(v) || v == data,
        decreases *old(self),
    {
        proof {
            lemma_cmp_cases(self.value, data);
            if self.is_bst() {
                lemma_inserted_is_bst(*self, data);
            }
            assert forall|v: T| self.inserted(data).has(v) <==> self.has(v) || v == data by {
                lemma_inserted_has(*self, data, v);
            }
        }
        match self.value.cmp(&data) {
            Ordering::Equal => {},
            Ordering::Greater => {
                match &mut self.left {
                    Some(left_branch) => left_branch.insert(data),
                    None => self.left = Self::boxer(data),
                }
            },
            Ordering::Less => {
                match &mut self.right {
                    Some(right_branch) => right_branch.insert(data),
                    None => self.right = Self::boxer(data),
                }
            },
        }
    }

    /// Whether the descent for `data` meets it, which in a binary search tree
    /// is whether the tree stores it.
    pub fn search(&self, data: T) -> (found: bool)
        requires
            is_total_order::<T>(),
        ensures
            found == self.on_path(data),
            self.is_bst() ==> found == self.has(data),
        decreases self,
    {
        proof {
            lemma_cmp_cases(self.value, data);
            if self.is_bst() {
                lemma_on_path_has(*self, data);
            }
        }
        match self.value.cmp(&data) {
            Ordering::Equal => true,
            Ordering::Greater => {
                match &self.left {
                    Some(left_branch) => left_branch.search(data),
                    None => false,
                }
            },
            Ordering::Less => {
                match &self.right {
                    Some(right_branch) => right_branch.search(data),
                    None => false,
                }
            },
        }
    }
}

} // verus!
