use binary_tree::samples::Utils;
use binary_tree::tree::Node;

#[test]
fn test_iter() {
    let setup = Utils::new();
    let balanced_tree_base = setup.balanced_tree_base;
    let vec_base = setup.vec_base;
    let vec_test: Vec<i32> = balanced_tree_base.into_iter().collect();

    assert_eq!(vec_base, vec_test);
}

#[test]
fn iter_internal_test_iter() {
    let setup = Utils::new();
    let balanced_tree_base = setup.balanced_tree_base;
    let vec_base = setup.vec_base;
    let tree_test = balanced_tree_base.clone();
    let vec_test: Vec<&i32> = tree_test.iter().collect();
    let vec_ref_base = vec_base.iter().collect::<Vec<&i32>>();

    assert_eq!(vec_ref_base, vec_test);
    // `tree_test` hasn't moved!
    assert_eq!(balanced_tree_base, tree_test);
}

#[test]
fn binary_tree_test_iter() {
    let mut tree = Node::new("hello");
    tree.insert("hi");
    tree.insert("bye");
    tree.insert("hey");
    tree.insert("three");
    let mut iter = tree.clone().into_iter();
    println!("{:#?}", tree);
    println!("{:?}", iter.next());
    println!("{:?}", iter.next());
    println!("{:?}", iter.next());
    println!("{:?}", iter.next());
    println!("{:?}", iter.next());
}

#[test]
fn iter_test_iter() {
    let mut tree = Node::new("hello");
    tree.insert("hi");
    tree.insert("bye");
    tree.insert("hey");
    tree.insert("three");
    let mut iter = tree.clone().into_iter();
    println!("{:#?}", tree);
    println!("{:?}", iter.next());
    println!("{:?}", iter.next());
    println!("{:?}", iter.next());
    println!("{:?}", iter.next());
    println!("{:?}", iter.next());
}

#[test]
fn consuming_iterator_yields_strings_in_order() {
    let mut tree = Node::new("hello");
    tree.insert("hi");
    tree.insert("bye");
    tree.insert("hey");
    tree.insert("three");
    let mut iter = tree.into_iter();

    assert_eq!(Some("bye"), iter.next());
    assert_eq!(Some("hello"), iter.next());
    assert_eq!(Some("hey"), iter.next());
    assert_eq!(Some("hi"), iter.next());
    assert_eq!(Some("three"), iter.next());
    assert_eq!(None, iter.next());
    assert_eq!(None, iter.next());
}

#[test]
fn borrowing_iterator_steps_one_value_at_a_time() {
    let mut tree = Node::new(50);
    for value in [25, 75, 15, 35, 60, 90, 65] {
        tree.insert(value);
    }
    let mut iter = tree.iter();

    assert_eq!(Some(&15), iter.next());
    assert_eq!(Some(&25), iter.next());
    assert_eq!(Some(&35), iter.next());
    assert_eq!(Some(&50), iter.next());
    assert_eq!(Some(&60), iter.next());
    assert_eq!(Some(&65), iter.next());
    assert_eq!(Some(&75), iter.next());
    assert_eq!(Some(&90), iter.next());
    assert_eq!(None, iter.next());
}

#[test]
fn iterator_over_a_leaf() {
    let tree = Node::new(4);

    assert_eq!(vec![&4], tree.iter().collect());

    let mut iter = tree.into_iter();

    assert_eq!(Some(4), iter.next());
    assert_eq!(None, iter.next());
}

#[test]
fn iterator_can_be_left_early_and_drained_later() {
    let mut tree = Node::new(3);
    for value in [1, 2, 5, 4] {
        tree.insert(value);
    }
    let mut iter = tree.iter();

    assert_eq!(Some(&1), iter.next());
    assert_eq!(Some(&2), iter.next());
    assert_eq!(vec![&3, &4, &5], iter.collect());

    let mut iter = tree.into_iter();

    assert_eq!(Some(1), iter.next());
    assert_eq!(vec![2, 3, 4, 5], iter.collect());
}

#[test]
fn iterator_over_chains() {
    let mut falling = Node::new(5);
    let mut rising = Node::new(1);
    for step in 1..5 {
        falling.insert(5 - step);
        rising.insert(1 + step);
    }

    assert_eq!(vec![1, 2, 3, 4, 5], falling.into_iter().collect());
    assert_eq!(vec![1, 2, 3, 4, 5], rising.into_iter().collect());
}

#[test]
fn iterator_follows_the_shape_not_the_order() {
    // In-order means left, node, right, whatever the values are.
    let tree = Node::new(1).set_left(9).set_right(0);

    assert_eq!(vec![&9, &1, &0], tree.iter().collect());
    assert_eq!(vec![9, 1, 0], tree.into_iter().collect());
}
