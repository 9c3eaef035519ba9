use merkle::difference;
use merkle::error::MerkleError;
use merkle::merkle_tree::MerkleTree;
use merkle::node::NodeRange;
use merkle::partitioner::{IPartitioner, Partitioner};
use merkle::row_hash::RowHash;
use merkle::token::IntegerToken;

fn rows_from(pairs: &[(u64, Vec<u8>)]) -> Vec<(IntegerToken, Vec<u8>)> {
    pairs.iter().map(|(k, v)| (IntegerToken::new(*k), v.clone())).collect()
}

fn build_tree(start: u64, end: u64, pairs: &[(u64, Vec<u8>)]) -> MerkleTree {
    let mut t = MerkleTree::new(NodeRange::new(start, end));
    t.build(&rows_from(pairs)).unwrap();
    t
}

fn covers(diff: &[NodeRange], key: u64) -> bool {
    diff.iter().any(|r| r.start <= key && key <= r.end)
}

#[test]
fn test_self_difference_is_empty() {
    let t = build_tree(1, 10, &[(1, vec![1, 2]), (5, vec![3]), (9, vec![4, 5, 6])]);
    let diff = t.difference(&t).unwrap();
    assert!(diff.is_empty());
}

#[test]
fn test_identical_trees_difference_is_empty() {
    let pairs = [(2, vec![7]), (3, vec![8, 9]), (10, vec![10])];
    let a = build_tree(1, 10, &pairs);
    let b = build_tree(1, 10, &pairs);
    let diff = a.difference(&b).unwrap();
    assert!(diff.is_empty());
}

#[test]
fn test_difference_scenario() {
    // Nine keys in [1,10]; keys 2, 3, 6, 7 and 8 carry different values on
    // the two sides. The report must cover every changed key and implicate
    // none of the unchanged ones.
    let base: Vec<(u64, Vec<u8>)> = vec![
        (1, vec![1, 2, 3]),
        (2, vec![2, 3, 4]),
        (3, vec![4, 5, 6]),
        (4, vec![4, 5, 10]),
        (5, vec![4, 5, 11]),
        (6, vec![4, 5, 12]),
        (7, vec![4, 5, 12]),
        (8, vec![4, 5, 12]),
        (9, vec![4, 5, 12]),
    ];
    let mut changed = base.clone();
    for &(k, ref v) in base.iter() {
        if k == 2 || k == 3 || k == 6 || k == 7 || k == 8 {
            let mut w = v.clone();
            w.push(1);
            changed[(k - 1) as usize] = (k, w);
        }
    }
    let a = build_tree(1, 10, &base);
    let b = build_tree(1, 10, &changed);

    let diff = a.difference(&b).unwrap();
    assert!(!diff.is_empty());
    for k in [2, 3, 6, 7, 8] {
        assert!(covers(&diff, k), "changed key {k} must be covered");
    }
    for k in [1, 4, 5, 9] {
        assert!(!covers(&diff, k), "unchanged key {k} must be excluded");
    }
}

#[test]
fn test_single_key_difference() {
    let base = [(1, vec![1]), (4, vec![2]), (9, vec![3])];
    let a = build_tree(1, 10, &base);
    let b = build_tree(1, 10, &[(1, vec![1]), (4, vec![9, 9]), (9, vec![3])]);
    let diff = a.difference(&b).unwrap();
    assert!(!diff.is_empty());
    assert!(covers(&diff, 4));
    // The untouched half of the bisection never appears in the report.
    for k in [6, 7, 8, 9, 10] {
        assert!(!covers(&diff, k));
    }
}

#[test]
fn test_incompatible_trees() {
    let a = build_tree(1, 5, &[(1, vec![1])]);
    let b = build_tree(6, 10, &[(6, vec![1])]);
    assert_eq!(a.difference(&b), Err(MerkleError::IncompatibleTrees));
}

#[test]
fn test_unbuilt_tree() {
    let a = MerkleTree::new(NodeRange::new(1, 10));
    let b = build_tree(1, 10, &[(1, vec![1])]);
    assert_eq!(a.difference(&b), Err(MerkleError::UnbuiltTree));
    assert_eq!(b.difference(&a), Err(MerkleError::UnbuiltTree));
    assert_eq!(a.root_digest(), Err(MerkleError::UnbuiltTree));
}

#[test]
fn test_out_of_range() {
    let mut t = build_tree(1, 10, &[(1, vec![1])]);
    let before = t.root_digest().unwrap();
    assert_eq!(
        t.insert(&IntegerToken::new(20), &vec![1]),
        Err(MerkleError::OutOfRange)
    );
    assert_eq!(t.root_digest().unwrap(), before);

    let mut u = MerkleTree::new(NodeRange::new(1, 10));
    assert_eq!(
        u.build(&rows_from(&[(1, vec![1]), (11, vec![2])])),
        Err(MerkleError::OutOfRange)
    );
    assert_eq!(u.root_digest(), Err(MerkleError::UnbuiltTree));
}

#[test]
fn test_range_not_found() {
    // [2,5] sits inside [1,10] but is no range that bisection of [1,10]
    // ever produces, so the replica has no node to compare against.
    let a = build_tree(2, 5, &[(2, vec![1])]);
    let b = build_tree(1, 10, &[(2, vec![1])]);
    assert_eq!(a.difference(&b), Err(MerkleError::RangeNotFound));
}

#[test]
fn test_contained_range_difference() {
    // [1,5] is the lower half of [1,10]: the replica's matching node is
    // located and compared. Equal content over [1,5] yields no divergence.
    let pairs = [(1, vec![1]), (3, vec![2]), (5, vec![3])];
    let a = build_tree(1, 5, &pairs);
    let b = build_tree(1, 10, &pairs);
    assert!(a.difference(&b).unwrap().is_empty());

    // A changed key inside the shared half is found.
    let c = build_tree(1, 10, &[(1, vec![1]), (3, vec![9]), (5, vec![3])]);
    let diff = a.difference(&c).unwrap();
    assert!(!diff.is_empty());
    assert!(covers(&diff, 3));
}

#[test]
fn test_insertion_order_determinism() {
    let fwd = [(1, vec![1]), (4, vec![2]), (7, vec![3]), (10, vec![4])];
    let rev = [(10, vec![4]), (7, vec![3]), (4, vec![2]), (1, vec![1])];
    let a = build_tree(1, 10, &fwd);
    let b = build_tree(1, 10, &rev);
    assert_eq!(a.root_digest().unwrap(), b.root_digest().unwrap());
    assert!(a.difference(&b).unwrap().is_empty());
}

#[test]
fn test_idempotent_insertion() {
    let mut once = build_tree(1, 10, &[(6, vec![1, 2])]);
    let mut twice = build_tree(1, 10, &[(6, vec![1, 2])]);
    once.insert(&IntegerToken::new(6), &vec![5, 5]).unwrap();
    twice.insert(&IntegerToken::new(6), &vec![5, 5]).unwrap();
    twice.insert(&IntegerToken::new(6), &vec![5, 5]).unwrap();
    assert_eq!(once.root_digest().unwrap(), twice.root_digest().unwrap());
}

#[test]
fn test_monotonic_convergence() {
    // Repair the replica with the origin's rows for every reported range:
    // afterwards the difference is empty.
    let origin_rows: Vec<(u64, Vec<u8>)> = (1..=9).map(|k| (k, vec![k as u8, 7])).collect();
    let replica_rows: Vec<(u64, Vec<u8>)> = (1..=9)
        .map(|k| if k % 3 == 0 { (k, vec![k as u8]) } else { (k, vec![k as u8, 7]) })
        .collect();
    let a = build_tree(1, 10, &origin_rows);
    let mut b = build_tree(1, 10, &replica_rows);

    let diff = a.difference(&b).unwrap();
    assert!(!diff.is_empty());
    for rng in &diff {
        for k in rng.start..=rng.end {
            if let Some((_, v)) = origin_rows.iter().find(|(ok, _)| *ok == k) {
                b.insert(&IntegerToken::new(k), v).unwrap();
            }
        }
    }
    assert!(a.difference(&b).unwrap().is_empty());
}

#[test]
fn test_insert_all_rows() {
    let mut viabuild = MerkleTree::new(NodeRange::new(1, 6));
    viabuild.build(&rows_from(&[(2, vec![1]), (5, vec![2, 3])])).unwrap();

    let mut viarows = MerkleTree::new(NodeRange::new(1, 6));
    let empty: Vec<(IntegerToken, Vec<u8>)> = Vec::new();
    viarows.build(&empty).unwrap();
    let batch = vec![
        RowHash::new(IntegerToken::new(2), vec![1]),
        RowHash::new(IntegerToken::new(5), vec![2, 3]),
    ];
    viarows.insert_all(&batch).unwrap();

    assert_eq!(viabuild.root_digest().unwrap(), viarows.root_digest().unwrap());

    // An unbuilt tree refuses a batch.
    let mut unbuilt = MerkleTree::new(NodeRange::new(1, 6));
    assert_eq!(unbuilt.insert_all(&batch), Err(MerkleError::UnbuiltTree));
}

#[test]
fn test_partitioner_matches_range_partition() {
    let p = IPartitioner {};
    let r = NodeRange::new(1, 10);
    let (l, rr) = p.call(&r).unwrap();
    assert_eq!((l.start, l.end), (1, 5));
    assert_eq!((rr.start, rr.end), (6, 10));
    assert!(p.call(&NodeRange::new(4, 4)).is_none());
}

#[test]
fn test_difference_build_entry_point() {
    let a = build_tree(1, 4, &[(1, vec![1]), (3, vec![2])]);
    let b = build_tree(1, 4, &[(1, vec![1]), (3, vec![5])]);
    let diff = difference::build(&a, &b, &IPartitioner {}).unwrap();
    assert!(!diff.is_empty());
    assert!(covers(&diff, 3));
    assert!(!covers(&diff, 1));
}
