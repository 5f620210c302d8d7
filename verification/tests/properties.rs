use binary_tree::tree::Node;

fn build(values: &[i32]) -> Node<i32> {
    let mut tree = Node::new(values[0]);
    for value in &values[1..] {
        tree.insert(*value);
    }
    tree
}

fn holds_order(node: &Node<i32>, above: Option<i32>, below: Option<i32>) -> bool {
    above.map_or(true, |bound| bound < node.value)
        && below.map_or(true, |bound| node.value < bound)
        && node.left.as_ref().map_or(true, |l| holds_order(l, above, Some(node.value)))
        && node.right.as_ref().map_or(true, |r| holds_order(r, Some(node.value), below))
}

fn longest_way_down(node: &Node<i32>) -> usize {
    let left = node.left.as_ref().map(|l| 1 + longest_way_down(l));
    let right = node.right.as_ref().map(|r| 1 + longest_way_down(r));
    left.unwrap_or(0).max(right.unwrap_or(0))
}

const MIXED: [i32; 12] = [41, 7, 93, 20, 64, 3, 88, 55, 12, 99, 1, 70];

#[test]
fn inserts_keep_the_search_order_at_every_node() {
    let mut tree = Node::new(MIXED[0]);
    assert!(holds_order(&tree, None, None));
    for value in &MIXED[1..] {
        tree.insert(*value);
        assert!(holds_order(&tree, None, None));
    }
}

#[test]
fn second_insert_of_a_value_changes_nothing() {
    for value in MIXED {
        let mut once = build(&MIXED[..6]);
        once.insert(value);
        let mut twice = once.clone();
        twice.insert(value);

        assert_eq!(once, twice);
    }
}

#[test]
fn visit_and_both_iterators_agree() {
    let tree = build(&MIXED);
    let visited: Vec<i32> = tree.visit().into_iter().copied().collect();
    let borrowed: Vec<i32> = tree.iter().collect().into_iter().copied().collect();
    let owned: Vec<i32> = tree.clone().into_iter().collect();

    assert_eq!(vec![1, 3, 7, 12, 20, 41, 55, 64, 70, 88, 93, 99], visited);
    assert_eq!(visited, borrowed);
    assert_eq!(visited, owned);
}

#[test]
fn visit_is_ascending() {
    let tree = build(&[5, 3, 8, 3, 5, 1, 9, 8, 2]);
    let visited = tree.visit();

    assert_eq!(vec![&1, &2, &3, &5, &8, &9], visited);
    assert!(visited.windows(2).all(|pair| pair[0] < pair[1]));
}

#[test]
fn depth_is_the_longest_way_down() {
    assert_eq!(0, Node::new(1).depth());
    assert_eq!(1, Node::new(1).set_left(0).depth());
    assert_eq!(1, Node::new(1).set_right(2).depth());
    assert_eq!(1, Node::new(1).set_left(0).set_right(2).depth());

    let mut tree = Node::new(MIXED[0]);
    for value in &MIXED[1..] {
        let before = tree.depth();
        tree.insert(*value);
        let after = tree.depth();

        assert!(after == before || after == before + 1);
        assert_eq!(longest_way_down(&tree), after);
    }
    assert_eq!(4, tree.depth());
}

#[test]
fn borrowing_iterator_leaves_the_tree_alone() {
    let tree = build(&MIXED);
    let kept = tree.clone();
    let drained = tree.iter().collect();

    assert_eq!(12, drained.len());
    assert_eq!(kept, tree);
    assert_eq!(kept.visit(), tree.visit());
}

#[test]
fn scenario_of_four_inserts() {
    let mut tree = Node::new(50);
    tree.insert(25);
    tree.insert(75);

    assert!(tree.search(25));
    assert!(!tree.search(15));
    assert_eq!(vec![&25, &50, &75], tree.visit());
    assert_eq!(1, tree.depth());

    tree.insert(15);

    assert_eq!(2, tree.depth());
    assert_eq!(vec![&15, &25, &50, &75], tree.visit());
    assert_eq!(vec![&15, &25, &50, &75], tree.iter().collect());
    assert_eq!(vec![15, 25, 50, 75], tree.into_iter().collect());
}

#[test]
fn search_finds_exactly_what_was_inserted() {
    let tree = build(&MIXED);
    for value in 0..=100 {
        assert_eq!(MIXED.contains(&value), tree.search(value));
    }
}
