//! What holds of the tree's operations, stated over the tree's model and
//! proved once for every tree and every value.

use crate::order::{is_total_order, lemma_cmp_cases, lemma_lt_transitive, lt};
use crate::tree::{Node, NodeBox};
use std::cmp::Ordering;
use vstd::prelude::*;
use vstd::std_specs::cmp::OrdSpec;

verus! {

/// Each element stands before every later one.
pub open spec fn strictly_ascending<T: Ord>(s: Seq<T>) -> bool {
    forall|i: int, j: int| 0 <= i < j < s.len() ==> lt(#[trigger] s[i], #[trigger] s[j])
}

/// A value occurs in `front`, then `mid`, then `back` exactly when it occurs
/// in one of the three.
pub proof fn lemma_joined_contains<T>(front: Seq<T>, mid: T, back: Seq<T>, v: T)
    ensures
        (front.push(mid) + back).contains(v) <==> front.contains(v) || v == mid || back.contains(v),
{
    let all = front.push(mid) + back;
    if all.contains(v) {
        let i = choose|i: int| 0 <= i < all.len() && all[i] == v;
        if i < front.len() {
            assert(front[i] == v);
        } else if i > front.len() {
            assert(back[i - front.len() - 1] == v);
        }
    }
    if front.contains(v) {
        let i = choose|i: int| 0 <= i < front.len() && front[i] == v;
        assert(all[i] == v);
    }
    if v == mid {
        assert(all[front.len() as int] == v);
    }
    if back.contains(v) {
        let i = choose|i: int| 0 <= i < back.len() && back[i] == v;
        assert(all[front.len() + 1 + i] == v);
    }
}

/// The in-order sequence holds exactly the values that the tree stores.
pub proof fn lemma_inorder_has<T>(tree: Node<T>, v: T)
    ensures
        tree.inorder().contains(v) <==> tree.has(v),
    decreases tree,
{
    lemma_inorder_of_has(tree.left, v);
    lemma_inorder_of_has(tree.right, v);
    lemma_joined_contains(
        Node::inorder_of(tree.left),
        tree.value,
        Node::inorder_of(tree.right),
        v,
    );
}

/// The in-order sequence of an optional subtree holds exactly what it stores.
pub proof fn lemma_inorder_of_has<T>(slot: NodeBox<T>, v: T)
    ensures
        Node::inorder_of(slot).contains(v) <==> Node::has_in(slot, v),
    decreases slot,
{
    match slot {
        Some(child) => lemma_inorder_has(*child, v),
        None => {},
    }
}

/// After an insert the tree stores what it stored before, and the inserted
/// value.
pub proof fn lemma_inserted_has<T: Ord>(tree: Node<T>, data: T, v: T)
    requires
        is_total_order::<T>(),
    ensures
        tree.inserted(data).has(v) <==> tree.has(v) || v == data,
    decreases tree,
{
    lemma_cmp_cases(tree.value, data);
    match tree.value.cmp_spec(&data) {
        Ordering::Equal => {},
        Ordering::Greater => lemma_inserted_in_has(tree.left, data, v),
        Ordering::Less => lemma_inserted_in_has(tree.right, data, v),
    }
}

/// After an insert below a child slot, the slot stores what it stored before,
/// and the inserted value.
pub proof fn lemma_inserted_in_has<T: Ord>(slot: NodeBox<T>, data: T, v: T)
    requires
        is_total_order::<T>(),
    ensures
        Node::has_in(Node::inserted_in(slot, data), v) <==> Node::has_in(slot, v) || v == data,
    decreases slot,
{
    match slot {
        Some(child) => lemma_inserted_has(*child, data, v),
        None => {},
    }
}

/// The tree after the values of `values` were inserted into `tree`, the first
/// one first.
pub open spec fn grown<T: Ord>(tree: Node<T>, values: Seq<T>) -> Node<T>
    decreases values.len(),
{
    if values.len() == 0 {
        tree
    } else {
        grown(tree, values.drop_last()).inserted(values.last())
    }
}

/// A single node is a binary search tree.
pub proof fn lemma_leaf_is_bst<T: Ord>(value: T)
    ensures
        Node::leaf(value).is_bst(),
{
}

/// A tree that was made as a single node and then only inserted into is a
/// binary search tree, whatever was inserted and in whatever order.
pub proof fn lemma_grown_is_bst<T: Ord>(first: T, values: Seq<T>)
    requires
        is_total_order::<T>(),
    ensures
        grown(Node::leaf(first), values).is_bst(),
    decreases values.len(),
{
    if values.len() > 0 {
        lemma_grown_is_bst(first, values.drop_last());
        lemma_inserted_is_bst(grown(Node::leaf(first), values.drop_last()), values.last());
    }
}

/// A tree that was made as a single node and then only inserted into stores
/// that node's value and the inserted ones, and nothing else.
pub proof fn lemma_grown_has<T: Ord>(first: T, values: Seq<T>, v: T)
    requires
        is_total_order::<T>(),
    ensures
        grown(Node::leaf(first), values).has(v) <==> v == first || values.contains(v),
    decreases values.len(),
{
    if values.len() > 0 {
        let before = values.drop_last();
        lemma_grown_has(first, before, v);
        lemma_inserted_has(grown(Node::leaf(first), before), values.last(), v);
        if values.contains(v) {
            let i = choose|i: int| 0 <= i < values.len() && values[i] == v;
            if i < before.len() {
                assert(before[i] == v);
            }
        }
        if before.contains(v) {
            let i = choose|i: int| 0 <= i < before.len() && before[i] == v;
            assert(values[i] == v);
        }
        if v == values.last() {
            assert(values[values.len() - 1] == v);
        }
    }
}

/// Inserting keeps the binary-search-tree property.
pub proof fn lemma_inserted_is_bst<T: Ord>(tree: Node<T>, data: T)
    requires
        is_total_order::<T>(),
        tree.is_bst(),
    ensures
        tree.inserted(data).is_bst(),
    decreases tree,
{
    lemma_cmp_cases(tree.value, data);
    match tree.value.cmp_spec(&data) {
        Ordering::Equal => {},
        Ordering::Greater => {
            lemma_inserted_in_is_bst(tree.left, data);
            assert forall|v: T| Node::has_in(Node::inserted_in(tree.left, data), v) implies lt(
                v,
                tree.value,
            ) by {
                lemma_inserted_in_has(tree.left, data, v);
            }
        },
        Ordering::Less => {
            lemma_inserted_in_is_bst(tree.right, data);
            assert forall|v: T| Node::has_in(Node::inserted_in(tree.right, data), v) implies lt(
                tree.value,
                v,
            ) by {
                lemma_inserted_in_has(tree.right, data, v);
            }
        },
    }
}

/// Inserting below a child slot keeps the binary-search-tree property of
/// what the slot holds.
pub proof fn lemma_inserted_in_is_bst<T: Ord>(slot: NodeBox<T>, data: T)
    requires
        is_total_order::<T>(),
        Node::is_bst_in(slot),
    ensures
        Node::is_bst_in(Node::inserted_in(slot, data)),
    decreases slot,
{
    match slot {
        Some(child) => lemma_inserted_is_bst(*child, data),
        None => {},
    }
}

/// Inserting is idempotent: a second insert of the same value changes neither
/// the shape of the tree nor a value in it.
pub proof fn lemma_inserted_twice<T: Ord>(tree: Node<T>, data: T)
    requires
        is_total_order::<T>(),
    ensures
        tree.inserted(data).inserted(data) == tree.inserted(data),
    decreases tree,
{
    lemma_cmp_cases(tree.value, data);
    let once = tree.inserted(data);
    assert(once.value == tree.value);
    match tree.value.cmp_spec(&data) {
        Ordering::Equal => {},
        Ordering::Greater => {
            lemma_inserted_in_twice(tree.left, data);
            assert(once.left == Node::inserted_in(tree.left, data));
        },
        Ordering::Less => {
            lemma_inserted_in_twice(tree.right, data);
            assert(once.right == Node::inserted_in(tree.right, data));
        },
    }
}

/// A second insert of the same value below a child slot changes nothing.
pub proof fn lemma_inserted_in_twice<T: Ord>(slot: NodeBox<T>, data: T)
    requires
        is_total_order::<T>(),
    ensures
        Node::inserted_in(Node::inserted_in(slot, data), data) == Node::inserted_in(slot, data),
    decreases slot,
{
    match slot {
        Some(child) => lemma_inserted_twice(*child, data),
        None => {
            lemma_cmp_cases(data, data);
            assert(Node::leaf(data).inserted(data) == Node::leaf(data));
        },
    }
}

/// Inserting a value that the descent meets leaves the tree as it is.
pub proof fn lemma_inserted_present<T: Ord>(tree: Node<T>, data: T)
    requires
        is_total_order::<T>(),
        tree.on_path(data),
    ensures
        tree.inserted(data) == tree,
    decreases tree,
{
    lemma_cmp_cases(tree.value, data);
    match tree.value.cmp_spec(&data) {
        Ordering::Equal => {},
        Ordering::Greater => {
            match tree.left {
                Some(child) => lemma_inserted_present(*child, data),
                None => {},
            }
        },
        Ordering::Less => {
            match tree.right {
                Some(child) => lemma_inserted_present(*child, data),
                None => {},
            }
        },
    }
}

/// In a binary search tree the descent for a value meets it exactly when the
/// tree stores it.
pub proof fn lemma_on_path_has<T: Ord>(tree: Node<T>, data: T)
    requires
        is_total_order::<T>(),
        tree.is_bst(),
    ensures
        tree.on_path(data) <==> tree.has(data),
    decreases tree,
{
    lemma_cmp_cases(tree.value, data);
    lemma_cmp_cases(data, tree.value);
    match tree.value.cmp_spec(&data) {
        Ordering::Equal => {},
        Ordering::Greater => {
            match tree.left {
                Some(child) => lemma_on_path_has(*child, data),
                None => {},
            }
        },
        Ordering::Less => {
            match tree.right {
                Some(child) => lemma_on_path_has(*child, data),
                None => {},
            }
        },
    }
}

/// The in-order sequence of a binary search tree is strictly ascending, so it
/// is sorted and holds no value twice.
pub proof fn lemma_inorder_ascending<T: Ord>(tree: Node<T>)
    requires
        is_total_order::<T>(),
        tree.is_bst(),
    ensures
        strictly_ascending(tree.inorder()),
    decreases tree,
{
    let front = Node::inorder_of(tree.left);
    let back = Node::inorder_of(tree.right);
    let all = tree.inorder();
    match tree.left {
        Some(child) => lemma_inorder_ascending(*child),
        None => {},
    }
    match tree.right {
        Some(child) => lemma_inorder_ascending(*child),
        None => {},
    }
    assert forall|i: int| 0 <= i < front.len() implies lt(#[trigger] front[i], tree.value) by {
        assert(front.contains(front[i]));
        lemma_inorder_of_has(tree.left, front[i]);
    }
    assert forall|j: int| 0 <= j < back.len() implies lt(tree.value, #[trigger] back[j]) by {
        assert(back.contains(back[j]));
        lemma_inorder_of_has(tree.right, back[j]);
    }
    assert forall|i: int, j: int| 0 <= i < j < all.len() implies lt(
        #[trigger] all[i],
        #[trigger] all[j],
    ) by {
        let n = front.len();
        if j < n {
            assert(all[i] == front[i] && all[j] == front[j]);
        } else if i > n {
            assert(all[i] == back[i - n - 1] && all[j] == back[j - n - 1]);
        } else if i == n {
            assert(all[j] == back[j - n - 1]);
        } else if j == n {
            assert(all[i] == front[i]);
        } else {
            assert(all[i] == front[i] && all[j] == back[j - n - 1]);
            lemma_lt_transitive(all[i], tree.value, all[j]);
        }
    }
}

/// Whether `path` leads from the root of `tree` down to a leaf, one step per
/// edge: `false` goes to the left child, `true` to the right one.
pub open spec fn leads_to_leaf<T>(tree: Node<T>, path: Seq<bool>) -> bool
    decreases tree,
{
    if path.len() == 0 {
        tree.left is None && tree.right is None
    } else {
        match if path[0] { tree.right } else { tree.left } {
            Some(child) => leads_to_leaf(*child, path.skip(1)),
            None => false,
        }
    }
}

/// A longest way from the root down to a leaf.
pub open spec fn deepest_path<T>(tree: Node<T>) -> Seq<bool>
    decreases tree,
{
    match (tree.left, tree.right) {
        (None, None) => Seq::empty(),
        (Some(l), None) => seq![false] + deepest_path(*l),
        (None, Some(r)) => seq![true] + deepest_path(*r),
        (Some(l), Some(r)) => if l.height() >= r.height() {
            seq![false] + deepest_path(*l)
        } else {
            seq![true] + deepest_path(*r)
        },
    }
}

/// No way from the root down to a leaf has more edges than the height.
pub proof fn lemma_height_bounds_paths<T>(tree: Node<T>, path: Seq<bool>)
    requires
        leads_to_leaf(tree, path),
    ensures
        path.len() <= tree.height(),
    decreases tree,
{
    if path.len() > 0 {
        match if path[0] { tree.right } else { tree.left } {
            Some(child) => lemma_height_bounds_paths(*child, path.skip(1)),
            None => {},
        }
    }
}

/// Some way from the root down to a leaf has as many edges as the height, so
/// the height is the length of the longest one.
pub proof fn lemma_height_is_reached<T>(tree: Node<T>)
    ensures
        leads_to_leaf(tree, deepest_path(tree)),
        deepest_path(tree).len() == tree.height(),
    decreases tree,
{
    let path = deepest_path(tree);
    match (tree.left, tree.right) {
        (None, None) => {},
        (Some(l), None) => {
            lemma_height_is_reached(*l);
            assert(path.skip(1) =~= deepest_path(*l));
        },
        (None, Some(r)) => {
            lemma_height_is_reached(*r);
            assert(path.skip(1) =~= deepest_path(*r));
        },
        (Some(l), Some(r)) => {
            lemma_height_is_reached(*l);
            lemma_height_is_reached(*r);
            if l.height() >= r.height() {
                assert(path.skip(1) =~= deepest_path(*l));
            } else {
                assert(path.skip(1) =~= deepest_path(*r));
            }
        },
    }
}

/// The height is below the number of values, so a tree whose values fit into
/// a `Vec` has a height that fits into a `usize`.
pub proof fn lemma_height_below_size<T>(tree: Node<T>)
    ensures
        tree.height() < tree.inorder().len(),
    decreases tree,
{
    match tree.left {
        Some(child) => lemma_height_below_size(*child),
        None => {},
    }
    match tree.right {
        Some(child) => lemma_height_below_size(*child),
        None => {},
    }
}

/// Where cloning a value gives that value back, cloning a tree gives that
/// tree back.
pub proof fn lemma_exact_clone<T: Clone>(copy: Node<T>, source: Node<T>)
    requires
        forall|a: T, b: T| #[trigger] cloned(a, b) ==> a == b,
        copy.is_clone_of(source),
    ensures
        copy == source,
    decreases copy,
{
    match (copy.left, source.left) {
        (Some(l), Some(m)) => lemma_exact_clone(*l, *m),
        _ => {},
    }
    match (copy.right, source.right) {
        (Some(r), Some(q)) => lemma_exact_clone(*r, *q),
        _ => {},
    }
}

/// An insert adds at most one edge to the height and takes none away.
pub proof fn lemma_inserted_height<T: Ord>(tree: Node<T>, data: T)
    ensures
        tree.height() <= tree.inserted(data).height() <= tree.height() + 1,
    decreases tree,
{
    let after = tree.inserted(data);
    match tree.value.cmp_spec(&data) {
        Ordering::Equal => {},
        Ordering::Greater => {
            assert(after.right == tree.right);
            match tree.left {
                Some(child) => {
                    lemma_inserted_height(*child, data);
                    assert(after.left == Some(Box::new(child.inserted(data))));
                },
                None => {
                    assert(after.left == Some(Box::new(Node::leaf(data))));
                    assert(Node::leaf(data).height() == 0);
                },
            }
        },
        Ordering::Less => {
            assert(after.left == tree.left);
            match tree.right {
                Some(child) => {
                    lemma_inserted_height(*child, data);
                    assert(after.right == Some(Box::new(child.inserted(data))));
                },
                None => {
                    assert(after.right == Some(Box::new(Node::leaf(data))));
                    assert(Node::leaf(data).height() == 0);
                },
            }
        },
    }
}

} // verus!
