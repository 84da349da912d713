use vetor::branch::node::Node;

#[test]
fn test_node_iterator() {
    let tree = Node::Children(vec![
        Node::Leaf(1),
        Node::Leaf(2),
        Node::Children(vec![Node::Leaf(4), Node::Leaf(3), Node::Leaf(5)]),
    ]);

    let mut walk = tree.iter();
    let mut seen: Vec<i32> = Vec::new();
    while let Some(item) = walk.next() {
        seen.push(*item);
    }
    assert_eq!(seen, vec![1, 2, 4, 3, 5]);
}

#[test]
fn a_changing_walk_reaches_every_item_in_order() {
    let mut tree = Node::Children(vec![
        Node::Leaf(1),
        Node::Children(vec![]),
        Node::Children(vec![Node::Leaf(4), Node::Children(vec![Node::Leaf(3)]), Node::Leaf(5)]),
        Node::Leaf(2),
    ]);
    let mut walk = tree.iter_mut();
    let mut seen: Vec<i32> = Vec::new();
    while let Some(item) = walk.next() {
        seen.push(*item);
        *item *= 10;
    }
    assert_eq!(seen, vec![1, 4, 3, 5, 2]);

    let mut walk = tree.iter();
    let mut after: Vec<i32> = Vec::new();
    while let Some(item) = walk.next() {
        after.push(*item);
    }
    assert_eq!(after, vec![10, 40, 30, 50, 20]);
    assert!(walk.next().is_none());
}

#[test]
fn a_single_leaf_is_walked() {
    let leaf = Node::Leaf(7);
    let mut walk = leaf.iter();
    assert_eq!(walk.next(), Some(&7));
    assert_eq!(walk.next(), None);
    let empty: Node<i32> = Node::Children(vec![]);
    assert!(empty.iter().next().is_none());
}
