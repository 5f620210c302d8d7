//! An ordered binary tree that stores each value once, with eager and lazy
//! in-order traversal.
//!
//! The tree is the recursive type [`tree::Node`], which is its own model: its
//! shape is part of what the contracts speak of. Inserting is pinned down to
//! the leaf it creates, searching to the descent it makes, and each traversal
//! to the sequence it yields. [`laws`] holds what follows for every tree: that
//! inserting keeps the search order and is idempotent, that the in-order
//! sequence of a search tree is ascending, and that the height is the length of
//! the longest way down. [`iter`] and [`iter_internal`] hold the two lazy
//! traversals, one owning the tree and one borrowing it.

pub mod iter;
pub mod iter_internal;
pub mod laws;
pub mod order;
pub mod samples;
pub mod tree;
