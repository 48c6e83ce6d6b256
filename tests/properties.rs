use std::collections::BTreeMap;

use trees::{BPlusTree, TreeError};

#[test]
fn degree_below_three_is_refused() {
    assert!(matches!(BPlusTree::new(vec![], 2), Err(TreeError::InvalidConfiguration)));
    assert!(matches!(BPlusTree::new(vec![1, 2], 0), Err(TreeError::InvalidConfiguration)));
    assert!(BPlusTree::new(vec![], 3).is_ok());
}

#[test]
fn insert_then_get_returns_the_value() {
    let mut tree = BPlusTree::new(vec![], 4).unwrap();
    for k in 0..50u32 {
        tree.insert(k * 3, k * 10 + 1);
    }
    for k in 0..50u32 {
        assert_eq!(tree.get(&(k * 3)), Some(&(k * 10 + 1)));
        assert_eq!(tree.get(&(k * 3 + 1)), None);
    }
}

#[test]
fn duplicate_insert_keeps_the_first_value() {
    let mut tree = BPlusTree::new(vec![1, 2, 3, 4, 5, 6], 3).unwrap();
    tree.insert(4, 400);
    assert_eq!(tree.get(&4), Some(&4));
    tree.insert(9, 90);
    tree.insert(9, 91);
    assert_eq!(tree.get(&9), Some(&90));
    assert_eq!(tree.traverse().len(), 7);
}

#[test]
fn remove_keeps_the_other_keys() {
    let keys: Vec<u32> = (1..60).collect();
    let mut tree = BPlusTree::new(keys.clone(), 5).unwrap();
    assert_eq!(tree.remove(&30), Some(30));
    assert_eq!(tree.get(&30), None);
    for k in keys.iter().filter(|&&k| k != 30) {
        assert_eq!(tree.get(k), Some(k));
    }
}

#[test]
fn traverse_yields_ascending_entries() {
    let keys = vec![50, 3, 99, 17, 4, 8, 23, 1, 77, 42, 16, 15, 60, 0];
    let mut tree = BPlusTree::new(keys.clone(), 4).unwrap();
    let mut expected: Vec<(u32, u32)> = keys.iter().map(|&k| (k, k)).collect();
    expected.sort();
    assert_eq!(tree.traverse(), expected);

    assert_eq!(tree.remove(&17), Some(17));
    assert_eq!(tree.remove(&0), Some(0));
    expected.retain(|&(k, _)| k != 17 && k != 0);
    assert_eq!(tree.traverse(), expected);
}

#[test]
fn removing_an_absent_key_changes_nothing() {
    let mut tree = BPlusTree::new((1..40).collect(), 4).unwrap();
    let before = tree.traverse();
    assert_eq!(tree.remove(&100), None);
    assert_eq!(tree.remove(&0), None);
    assert_eq!(tree.traverse(), before);
}

#[test]
fn remove_everything_in_ascending_order_leaves_an_empty_tree() {
    let keys: Vec<u32> = (1..200).collect();
    let mut tree = BPlusTree::new(keys.clone(), 4).unwrap();
    for k in &keys {
        assert_eq!(tree.remove(k), Some(*k));
    }
    for k in &keys {
        assert_eq!(tree.get(k), None);
    }
    assert!(tree.traverse().is_empty());
    tree.insert(5, 6);
    assert_eq!(tree.get(&5), Some(&6));
}

#[test]
fn extreme_keys_are_stored() {
    let mut tree = BPlusTree::new(vec![], 3).unwrap();
    tree.insert(u32::MAX, 1);
    tree.insert(0, 2);
    tree.insert(u32::MAX - 1, 3);
    assert_eq!(tree.get(&u32::MAX), Some(&1));
    assert_eq!(tree.get(&0), Some(&2));
    assert_eq!(tree.traverse(), vec![(0, 2), (u32::MAX - 1, 3), (u32::MAX, 1)]);
    assert_eq!(tree.remove(&u32::MAX), Some(1));
    assert_eq!(tree.get(&u32::MAX), None);
}

#[test]
fn mixed_operations_agree_with_an_ordered_map() {
    for degree in 3..9usize {
        let mut tree = BPlusTree::new(vec![], degree).unwrap();
        let mut reference: BTreeMap<u32, u32> = BTreeMap::new();
        let mut state: u64 = 12345 + degree as u64;
        for step in 0..3000u32 {
            state = state.wrapping_mul(6364136223846793005).wrapping_add(1442695040888963407);
            let key = ((state >> 33) % 300) as u32;
            if (state >> 20) % 3 == 0 {
                assert_eq!(tree.remove(&key), reference.remove(&key));
            } else {
                tree.insert(key, step);
                reference.entry(key).or_insert(step);
            }
            assert_eq!(tree.get(&key), reference.get(&key));
        }
        let expected: Vec<(u32, u32)> = reference.iter().map(|(&k, &v)| (k, v)).collect();
        assert_eq!(tree.traverse(), expected);
    }
}

#[test]
fn descending_removal_with_odd_degree() {
    let keys: Vec<u32> = (1..120).collect();
    let mut tree = BPlusTree::new(keys.clone(), 7).unwrap();
    for k in keys.iter().rev() {
        assert_eq!(tree.remove(k), Some(*k));
        assert_eq!(tree.get(k), None);
    }
    assert!(tree.traverse().is_empty());
}
