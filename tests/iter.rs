use html_tree::tree::node::{Iter, Node};

#[test]
fn should_iter_empty() {
    let mut iter: Iter<i32> = Iter { node: None, range: &[] };

    assert_eq!(iter.next(), None);
}

#[test]
fn should_iter() {
    let node = Node::new(1);

    let mut iter = Iter { node: Some(&node), range: &[node] };

    assert_eq!(iter.next().map(|t| *t), Some(1));
    assert_eq!(iter.next(), None);
}

#[test]
fn should_iter_two() {
    let mut node_1 = Node::new(1);
    let node_2 = Node::new(2);

    node_1.child = Some(1);

    let mut iter = Iter { node: Some(&node_1), range: &[node_1, node_2] };

    assert_eq!(iter.next().map(|t| *t), Some(1));
    assert_eq!(iter.next().map(|t| *t), Some(2));
    assert_eq!(iter.next(), None);
}

#[test]
fn iter_climbs_to_parent_sibling_and_stops_at_last_leaf() {
    let mut root = Node::new(0);
    let mut a = Node::new(1);
    let mut leaf = Node::new(2);
    let mut b = Node::new(3);
    root.child = Some(1);
    a.parent = Some(0);
    a.child = Some(2);
    a.next_sibling = Some(3);
    leaf.parent = Some(1);
    b.parent = Some(0);
    b.prev_sibling = Some(1);
    let nodes = [root, a, leaf, b];
    let mut iter = Iter { node: Some(&nodes[0]), range: &nodes };
    let mut seen = Vec::new();
    while let Some(v) = iter.next() {
        seen.push(*v);
    }
    // `leaf` climbs to `a`'s next sibling `b`; `b` climbs to `root`, which has no next
    // sibling, so the walk ends there without yielding `b`.
    assert_eq!(seen, vec![0, 1, 2]);
    assert!(iter.next().is_none());
}
