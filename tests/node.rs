use fishing_jigsaw::mcts::Node;

#[test]
fn new_node_is_empty() {
    let n: Node<u8> = Node::new();
    assert_eq!(n.visits, 0);
    assert_eq!(n.wins, 0);
    assert!(n.parent.is_none());
    assert!(n.children.is_empty());
}

#[test]
fn update_accumulates() {
    let mut n: Node<u8> = Node::new();
    n.update(3, 1);
    n.update(-5, 2);
    assert_eq!(n.visits, 3);
    assert_eq!(n.wins, -2);
    n.update(i32::MIN, 1);
    assert_eq!(n.wins, -2 + i32::MIN as i64);
}

#[test]
fn children_by_action() {
    let mut n: Node<u8> = Node::new();
    n.set_parent(4);
    assert_eq!(n.parent, Some(4));
    n.set_child(7, 10);
    n.set_child(2, 11);
    assert_eq!(n.child(7), Some(10));
    assert_eq!(n.child(2), Some(11));
    assert_eq!(n.child(3), None);
    n.set_child(7, 12);
    assert_eq!(n.child(7), Some(12));
    assert_eq!(n.children, vec![(7, 12), (2, 11)]);
}

use fishing_jigsaw::mcts::utils::{BuildIdentityHasher, IdentityHasher};
use std::collections::HashMap;
use std::hash::{BuildHasher, Hash, Hasher};

#[test]
fn identity_hasher_shifts_bytes_in() {
    let mut h: IdentityHasher = BuildIdentityHasher.build_hasher();
    assert_eq!(h.finish(), 0);
    h.write(&[1, 2]);
    assert_eq!(h.finish(), 0x0102);
    h.write(&[3, 4, 5, 6, 7, 8, 9]);
    assert_eq!(h.finish(), 0x0203_0405_0607_0809);
}

#[test]
fn identity_hasher_on_small_keys() {
    let mut h = BuildIdentityHasher.build_hasher();
    7u8.hash(&mut h);
    assert_eq!(h.finish(), 7);
    let mut map: HashMap<u8, usize, BuildIdentityHasher> = HashMap::with_hasher(BuildIdentityHasher);
    map.insert(3, 30);
    map.insert(24, 240);
    assert_eq!(map.get(&3), Some(&30));
    assert_eq!(map.get(&24), Some(&240));
    assert_eq!(map.len(), 2);
}
