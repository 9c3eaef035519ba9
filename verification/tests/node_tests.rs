use merkle::node::{Node, NodeRange};
use merkle::token::{IntegerToken, Token};

#[test]
fn test_update_leaf() {
    let mut n1 = Node::empty_leaf();
    let n2 = Node::new_leaf(&vec![1, 2, 3]);

    assert!(n1.digest() != n2.digest());

    n1.update_leaf(&vec![1, 2, 3]);
    assert!(n1.digest() == n2.digest());
}

#[test]
fn test_update_node() {
    let n1 = Node::new_node(
        NodeRange::new(1, 2),
        Node::new_leaf(&vec![1, 2, 3]),
        Node::new_leaf(&vec![1, 2, 3]),
    );

    let mut n2 = Node::new_node(
        NodeRange::new(1, 2),
        Node::empty_leaf(),
        Node::new_leaf(&vec![1, 2, 3]),
    );

    assert!(n1.digest() != n2.digest());

    n2.update(&IntegerToken::new(1), &vec![1, 2, 3]).unwrap();

    assert!(n1.digest() == n2.digest());
}

#[test]
fn test_digest_value() {
    let n1: Node = Node::new_leaf(&vec![1]);
    let n2: Node = Node::new_leaf(&vec![1]);
    assert!(n1.digest() == n2.digest());

    let n1: Node = Node::new_leaf(&vec![1]);
    let n2: Node = Node::new_leaf(&vec![2]);
    assert!(n1.digest() != n2.digest());

    let r = NodeRange::new(1, 2);
    let n3 = Node::new_node(r.clone(), Node::new_leaf(&vec![1]), Node::new_leaf(&vec![1]));
    let n4 = Node::new_node(r.clone(), Node::new_leaf(&vec![1]), Node::new_leaf(&vec![1]));
    assert!(n3.digest() == n4.digest());
}

#[test]
fn test_digest_length_and_mixing() {
    // The digest primitive returns 20 bytes and never hands its input back.
    let d = Node::new_leaf(&vec![1, 2, 3]).digest();
    assert_eq!(d.len(), 20);
    assert!(d != vec![1, 2, 3]);

    // An inner digest combines both children: it differs from either
    // child's digest, and swapping the children changes it.
    let la = Node::new_leaf(&vec![1]);
    let lb = Node::new_leaf(&vec![2]);
    let n = Node::new_node(NodeRange::new(1, 2), la, lb);
    let dn = n.digest();
    assert_eq!(dn.len(), 20);
    assert!(dn != Node::new_leaf(&vec![1]).digest());
    assert!(dn != Node::new_leaf(&vec![2]).digest());

    let swapped = Node::new_node(
        NodeRange::new(1, 2),
        Node::new_leaf(&vec![2]),
        Node::new_leaf(&vec![1]),
    );
    assert!(swapped.digest() != dn);
}

#[test]
fn test_update_out_of_range_key() {
    let mut n = Node::new_node(
        NodeRange::new(1, 2),
        Node::empty_leaf(),
        Node::empty_leaf(),
    );
    let before = n.digest();
    let res = n.update(&IntegerToken::new(9), &vec![1]);
    assert_eq!(res, Err(merkle::error::MerkleError::OutOfRange));
    assert_eq!(n.digest(), before);
}

#[test]
fn test_range_operations() {
    let r = NodeRange::new(1, 10);
    assert_eq!(r.size(), 9);
    assert_eq!(r.midpoint().value(), 5);

    let (l, rr) = r.partition_by_mid().unwrap();
    assert_eq!((l.start, l.end), (1, 5));
    assert_eq!((rr.start, rr.end), (6, 10));

    assert!(r.is_contain(&IntegerToken::new(1)));
    assert!(r.is_contain(&IntegerToken::new(10)));
    assert!(!r.is_contain(&IntegerToken::new(11)));

    let unit = NodeRange::new(4, 4);
    assert_eq!(unit.size(), 0);
    assert!(unit.partition_by_mid().is_none());

    match r.position(&IntegerToken::new(3)) {
        merkle::node::Pos::Left => {}
        _ => panic!("key 3 belongs to the lower half"),
    }
    match r.position(&IntegerToken::new(6)) {
        merkle::node::Pos::Right => {}
        _ => panic!("key 6 belongs to the upper half"),
    }
    match r.position(&IntegerToken::new(0)) {
        merkle::node::Pos::Out => {}
        _ => panic!("key 0 lies outside"),
    }

    match NodeRange::new(1, 10).cover(&NodeRange::new(2, 5)) {
        merkle::node::Cover::Full => {}
        _ => panic!("[2,5] lies inside [1,10]"),
    }
    match NodeRange::new(1, 3).cover(&NodeRange::new(5, 8)) {
        merkle::node::Cover::Disjoint => {}
        _ => panic!("[5,8] misses [1,3]"),
    }
    match NodeRange::new(1, 6).cover(&NodeRange::new(5, 8)) {
        merkle::node::Cover::Partial => {}
        _ => panic!("[5,8] overlaps [1,6] in part"),
    }
}

#[test]
fn test_search_in_finds_half() {
    let mut tree = merkle::merkle_tree::MerkleTree::new(NodeRange::new(1, 10));
    let rows: Vec<(IntegerToken, Vec<u8>)> = Vec::new();
    tree.build(&rows).unwrap();
    match tree.root() {
        Some(root) => {
            let found = root.search_in(&NodeRange::new(1, 5)).expect("half must exist");
            match found {
                Node::Inner { range, .. } => {
                    assert_eq!((range.start, range.end), (1, 5));
                }
                Node::Leaf { .. } => panic!("found node must be inner"),
            }
            // A non-canonical range resolves to no exact node.
            match root.search_in(&NodeRange::new(2, 5)) {
                Some(Node::Inner { range, .. }) => {
                    assert!(!(range.start == 2 && range.end == 5));
                }
                _ => {}
            }
        }
        None => panic!("tree was built"),
    }
}
