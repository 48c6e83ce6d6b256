use trees::BPlusTree;

#[test]
fn get_on_empty_tree() {
    let tree = BPlusTree::new(vec![], 4).unwrap();
    assert_eq!(tree.get(&2), None);
}

#[test]
fn insert_on_root_node() {
    let mut tree = BPlusTree::new(vec![], 4).unwrap();

    tree.insert(1, 1);
    tree.insert(2, 2);
    tree.insert(3, 3);

    assert_eq!(tree.get(&1), Some(&1));
    assert_eq!(tree.get(&2), Some(&2));
    assert_eq!(tree.get(&3), Some(&3));
}

#[test]
fn insert_and_split_on_root_node() {
    let mut tree = BPlusTree::new(vec![7, 10, 15], 4).unwrap();
    tree.insert(8, 8);

    assert_eq!(tree.get(&8), Some(&8));
    assert_eq!(tree.get(&18), None);
}

#[test]
fn insert_on_leaf_node() {
    let mut tree = BPlusTree::new(vec![7, 10, 15, 8], 4).unwrap();
    tree.insert(11, 11);
    assert_eq!(tree.get(&11), Some(&11));
}

#[test]
fn insert_and_split_on_leaf_node() {
    let mut tree = BPlusTree::new(vec![7, 10, 15, 8, 11], 4).unwrap();

    tree.insert(12, 12);
    assert_eq!(tree.get(&12), Some(&12));
    assert_eq!(tree.get(&7), Some(&7));
    assert_eq!(tree.get(&8), Some(&8));
}

#[test]
fn insert_and_split_recursively_on_level_3_leaf_node() {
    let vec = vec![7, 10, 15, 8, 11, 12, 19, 25, 30];
    let mut tree = BPlusTree::new(vec.clone(), 4).unwrap();

    tree.insert(49, 49);
    assert_eq!(tree.get(&49), Some(&49));

    for v in vec {
        assert_eq!(tree.get(&v), Some(&v));
    }
}

#[test]
fn insert_and_split_is_reasign_to_the_right_spot() {
    let vec = vec![7, 10, 15, 8, 11, 12, 19, 25, 30, 49, 69, 90, 59];
    let mut tree = BPlusTree::new(vec.clone(), 4).unwrap();

    tree.insert(41, 41);
    assert_eq!(tree.get(&41), Some(&41));

    for v in vec {
        assert_eq!(tree.get(&v), Some(&v));
    }
}

#[test]
fn insert_and_split_on_existing_internal_node() {
    let vec = vec![7, 10, 15, 8, 11, 12, 19, 25, 30, 49, 69, 90, 59, 41, 45];
    let mut tree = BPlusTree::new(vec.clone(), 4).unwrap();

    tree.insert(42, 42);
    assert_eq!(tree.get(&42), Some(&42));
    for v in vec {
        assert_eq!(tree.get(&v), Some(&v));
    }
}

#[test]
fn insert_and_split_on_level_4_leaf_node() {
    let vec = vec![
        7, 10, 15, 8, 11, 12, 19, 25, 30, 49, 69, 90, 59, 41, 45, 42, 1, 4, 50, 52, 5, 6, 9,
        23, 29, 26, 34,
    ];
    let mut tree = BPlusTree::new(vec.clone(), 4).unwrap();

    tree.insert(35, 35);
    assert_eq!(tree.get(&35), Some(&35));

    for v in vec {
        assert_eq!(tree.get(&v), Some(&v));
    }
}

#[test]
fn insert_and_split_on_level_5_leaf_node() {
    let vec: Vec<u32> = (1..82).collect();
    let mut tree = BPlusTree::new(vec.clone(), 4).unwrap();

    tree.insert(82, 82);
    assert_eq!(tree.get(&82), Some(&82));

    for v in vec {
        assert_eq!(tree.get(&v), Some(&v));
    }
}

#[test]
fn bplustree_delete_key_on_root_node() {
    let mut tree = BPlusTree::new(vec![2, 7, 8], 4).unwrap();

    assert_eq!(tree.remove(&7), Some(7));
    assert_eq!(tree.remove(&8), Some(8));
    assert_eq!(tree.remove(&1), None);
    assert_eq!(tree.remove(&8), None);
}

#[test]
fn delete_key_case1a() {
    let mut vec = vec![2, 7, 8, 9, 4, 6, 1, 5, 3];
    let mut tree = BPlusTree::new(vec.clone(), 4).unwrap();

    assert_eq!(tree.remove(&7), Some(7));
    assert_eq!(tree.get(&7), None);

    vec.remove(1);
    for v in vec {
        assert_eq!(tree.get(&v), Some(&v));
    }
}

#[test]
fn delete_key_case1b() {
    let mut vec = vec![15, 25, 35, 5, 45, 20, 30, 55, 40];
    let mut tree = BPlusTree::new(vec.clone(), 3).unwrap();

    assert_eq!(tree.remove(&5), Some(5));

    vec.retain(|&x| x != 5);
    for v in vec {
        assert_eq!(tree.get(&v), Some(&v));
    }
}

#[test]
fn delete_key_case2a() {
    let mut vec = vec![15, 25, 35, 5, 45, 20, 30, 55, 40];
    let mut tree = BPlusTree::new(vec.clone(), 3).unwrap();
    tree.remove(&40);
    tree.remove(&5);

    assert_eq!(tree.remove(&45), Some(45));
    assert_eq!(tree.get(&45), None);

    vec.retain(|&x| x != 40 && x != 5 && x != 45);
    for v in vec {
        assert_eq!(tree.get(&v), Some(&v));
    }
}

#[test]
fn delete_key_case2b() {
    let mut vec = vec![2, 7, 8, 9, 4, 6, 1, 5, 3];
    let mut tree = BPlusTree::new(vec.clone(), 4).unwrap();
    tree.remove(&7);

    assert_eq!(tree.remove(&6), Some(6));
    assert_eq!(tree.get(&6), None);

    vec.retain(|&x| x != 7 && x != 6);
    for v in vec {
        assert_eq!(tree.get(&v), Some(&v));
    }
}

#[test]
fn delete_key_case2c() {
    let mut vec = vec![
        7, 8, 9, 4, 6, 1, 5, 3, 10, 11, 14, 16, 17, 18, 19, 20, 21, 22, 23, 24, 25, 30,
    ];
    let mut tree = BPlusTree::new(vec.clone(), 4).unwrap();
    tree.remove(&24);

    assert_eq!(tree.remove(&23), Some(23));
    assert_eq!(tree.get(&23), None);

    vec.retain(|&x| x != 24 && x != 23);
    for v in vec {
        assert_eq!(tree.get(&v), Some(&v));
    }
}

#[test]
fn delete_key_case3() {
    let vec = vec![15, 25, 35, 5, 45, 20, 30, 55, 40];
    let mut tree = BPlusTree::new(vec.clone(), 3).unwrap();
    tree.remove(&40);
    tree.remove(&5);
    tree.remove(&45);
    tree.remove(&35);
    tree.remove(&25);

    assert_eq!(tree.remove(&55), Some(55));
    assert_eq!(tree.get(&55), None);

    let vec = vec![15, 20, 30];
    for v in vec {
        assert_eq!(tree.get(&v), Some(&v));
    }
}

#[test]
fn delete_key_at_leaf_node_that_require_merge_and_delete_from_internal() {
    // Delete 3 from:
    // [7, 13]
    // [4, 5]  [9, 11]  [15, 17]
    // [3]  [4]  [5, 6]  [7, 8]  [9, 10]  [11, 12]  [13, 14]  [15, 16]  [17, 18, 19]
    //
    // Become:
    // [7, 13]
    // [4, 5]  [9, 11]  [15, 17]
    // []  [4]  [5, 6]  [7, 8]  [9, 10]  [11, 12]  [13, 14]  [15, 16]  [17, 18, 19]
    //
    // Hence, we need to merge node [] and [4], with that our parent has one less child,
    // and hence we need to remove 4 from the parent keys.
    // [7, 13]
    // [5]  [9, 11]  [15, 17]
    // [4]  [5, 6]  [7, 8]  [9, 10]  [11, 12]  [13, 14]  [15, 16]  [17, 18, 19]
    let mut vec: Vec<u32> = (1..20).collect();
    let mut tree = BPlusTree::new(vec.clone(), 4).unwrap();
    tree.remove(&1);
    tree.remove(&2);

    assert_eq!(tree.remove(&3), Some(3));
    assert_eq!(tree.get(&3), None);

    vec.retain(|&x| x != 1 && x != 2 && x != 3);
    for v in &vec {
        assert_eq!(tree.get(v), Some(v));
    }
}

#[test]
fn delete_key_at_leaf_node_that_require_to_get_key_from_parent_and_steal_sibling_child() {
    // Delete 5 from:
    // [7, 13]
    // [6]  [9, 11]  [15, 17]
    // [5]  [6]  [7, 8]  [9, 10]  [11, 12]  [13, 14]  [15, 16]  [17, 18, 19]
    //
    // Become:
    // [7, 13]
    // [6]  [9, 11]  [15, 17]
    // []  [6]  [7, 8]  [9, 10]  [11, 12]  [13, 14]  [15, 16]  [17, 18, 19]
    //
    // Hence, we need to merge [], [6], by getting from parent and parent steal from
    // right sibling, since now our right sibling have less key, we also need to
    // steal their child:
    // [7, 13]
    // [6]  [9, 11]  [15, 17]
    // []  [6]  [7, 8]  [9, 10]  [11, 12]  [13, 14]  [15, 16]  [17, 18, 19]
    //
    // and after merge:
    // [9, 13]
    // [7]  [11]  [15, 17]
    // [6]  [7, 8]  [9, 10]  [11, 12]  [13, 14]  [15, 16]  [17, 18, 19]
    let mut vec: Vec<u32> = (1..20).collect();
    let mut tree = BPlusTree::new(vec.clone(), 4).unwrap();
    tree.remove(&1);
    tree.remove(&2);
    tree.remove(&3);
    tree.remove(&4);

    assert_eq!(tree.remove(&5), Some(5));
    assert_eq!(tree.get(&5), None);

    vec.retain(|x| ![1, 2, 3, 4, 5].contains(x));
    for v in &vec {
        assert_eq!(tree.get(v), Some(v));
    }
}

#[test]
fn delete_key_at_leaf_node_that_require_get_key_from_parent_to_combine_with_sibling_child() {
    // Remove 7 from:
    // [9, 13]
    // [8]  [11]  [15, 17]
    // [7]  [8]  [9, 10]  [11, 12]  [13, 14]  [15, 16]  [17, 18, 19]
    //
    // Become:
    // [9, 13]
    // [8]  [11]  [15, 17]
    // []  [8]  [9, 10]  [11, 12]  [13, 14]  [15, 16]  [17, 18, 19]
    //
    // Since, we can't steal from right siblings as it only have one key,
    // we steal from our parent. This mean that parent will have one less child as
    // welll as we need to merge our left and right siblings:
    // [13]
    // [9, 11]  [15, 17]
    // [8]  [9, 10]  [11, 12]  [13, 14]  [15, 16]  [17, 18, 19]
    let mut vec: Vec<u32> = (1..20).collect();
    let mut tree = BPlusTree::new(vec.clone(), 4).unwrap();
    tree.remove(&1);
    tree.remove(&2);
    tree.remove(&3);
    tree.remove(&4);
    tree.remove(&5);
    tree.remove(&6);

    assert_eq!(tree.remove(&7), Some(7));
    assert_eq!(tree.get(&7), None);

    vec.retain(|x| ![1, 2, 3, 4, 5, 6, 7].contains(x));
    for v in &vec {
        assert_eq!(tree.get(v), Some(v));
    }
}

#[test]
fn delete_all_keys_from_left_to_right() {
    let mut vec: Vec<u32> = (1..200).collect();
    let mut tree = BPlusTree::new(vec.clone(), 3).unwrap();

    vec.retain(|&x| x != 199);
    for &v in &vec {
        assert_eq!(tree.remove(&v), Some(v));
    }

    assert_eq!(tree.remove(&199), Some(199));
    assert_eq!(tree.get(&199), None);

    for v in &vec {
        assert_eq!(tree.get(v), None);
    }
}

#[test]
fn delete_keys_on_leaf_node_that_need_to_steal_from_both_sibling_and_parent() {
    // Delete 14 from:
    // [7, 13]
    // [3, 5]  [9, 11]  [14]
    // [1, 2]  [3, 4]  [5, 6]  [7, 8]  [9, 10]  [11, 12]  [13]  [14]
    //
    // become:
    // [7, 13]
    // [3, 5]  [9, 11]  []
    // [1, 2]  [3, 4]  [5, 6]  [7, 8]  [9, 10]  [11, 12]  [13]  []
    //
    // since, parent and sibling have enough keys, right sibling steal key from parent.
    // Parent will then steal key from the siblings. Since left sibling has child,
    // right sibling will need to steal the child from left sibling.
    //
    // [7, 11]
    // [3, 5]  [9]  [13]
    // [1, 2]  [3, 4]  [5, 6]  [7, 8]  [9, 10]  [11, 12]  [13]
    let mut vec: Vec<u32> = (1..20).collect();
    let mut tree = BPlusTree::new(vec.clone(), 4).unwrap();
    tree.remove(&19);
    tree.remove(&18);
    tree.remove(&17);
    tree.remove(&16);
    tree.remove(&15);

    assert_eq!(tree.remove(&14), Some(14));
    assert_eq!(tree.get(&14), None);

    vec.retain(|x| ![19, 18, 17, 16, 15, 14].contains(x));
    for v in &vec {
        assert_eq!(tree.get(v), Some(v));
    }
}

#[test]
fn delete_all_keys_from_right_to_left() {
    let mut vec: Vec<u32> = (1..20).collect();
    let mut tree = BPlusTree::new(vec.clone(), 4).unwrap();

    vec.retain(|&x| x != 1);
    for &v in vec.iter().rev() {
        assert_eq!(tree.remove(&v), Some(v));
    }

    assert_eq!(tree.remove(&1), Some(1));
    assert_eq!(tree.get(&1), None);

    for v in &vec {
        assert_eq!(tree.get(v), None);
    }
}

#[test]
fn random_test_case_1() {
    let mut vec: Vec<u32> = (1..20).collect();
    let mut tree = BPlusTree::new(vec.clone(), 4).unwrap();
    let deletes = vec![18, 16, 15, 13, 6, 17, 4, 3, 2, 11, 7, 9, 12];

    for v in &deletes {
        assert_eq!(tree.remove(v), Some(*v));
    }

    assert_eq!(tree.remove(&14), Some(14));
    assert_eq!(tree.get(&14), None);
    assert_eq!(tree.remove(&19), Some(19));
    assert_eq!(tree.get(&19), None);

    vec.retain(|x| !deletes.contains(x) && *x != 14 && *x != 19);
    for v in &vec {
        assert_eq!(tree.get(v), Some(v));
    }
}

#[test]
fn random_test_case_2() {
    let mut vec: Vec<u32> = (1..20).collect();
    let mut tree = BPlusTree::new(vec.clone(), 4).unwrap();
    let deletes = vec![
        16, 11, 12, 6, 17, 4, 15, 18, 13, 3, 14, 10, 2, 9, 19, 1, 5, 7, 8,
    ];

    for v in &deletes {
        assert_eq!(tree.remove(v), Some(*v));
    }

    vec.retain(|x| !deletes.contains(x));
    for v in &vec {
        assert_eq!(tree.get(v), None);
    }
}

#[test]
fn random_test_case_3() {
    let mut vec: Vec<u32> = (1..20).collect();
    let mut tree = BPlusTree::new(vec.clone(), 4).unwrap();
    let deletes = vec![1, 5, 19, 18, 6, 3, 2, 10, 8, 12, 14, 17, 13];
    let to_deletes = vec![16, 15, 7, 11, 4];

    for v in &deletes {
        assert_eq!(tree.remove(v), Some(*v));
    }

    assert_eq!(tree.remove(&9), Some(9));
    assert_eq!(tree.get(&9), None);

    for v in &to_deletes {
        assert_eq!(tree.remove(v), Some(*v));
    }

    vec.retain(|x| !deletes.contains(x) && !to_deletes.contains(x));
    for v in &vec {
        assert_eq!(tree.get(v), None);
    }
}

#[test]
fn random_test_case_4() {
    let mut vec: Vec<u32> = (1..20).collect();
    let mut tree = BPlusTree::new(vec.clone(), 4).unwrap();
    let deletes = vec![11, 10, 12, 18, 7, 16, 14, 19, 2];
    let to_deletes = vec![1, 5, 13, 8, 4, 15, 6, 3, 17];

    for v in &deletes {
        assert_eq!(tree.remove(v), Some(*v));
    }

    assert_eq!(tree.remove(&9), Some(9));
    assert_eq!(tree.get(&9), None);

    for v in &to_deletes {
        assert_eq!(tree.remove(v), Some(*v));
    }

    vec.retain(|x| !deletes.contains(x) && !to_deletes.contains(x));
    for v in &vec {
        assert_eq!(tree.get(v), None);
    }
}

fn shuffle(values: &mut Vec<u32>, state: &mut u64) {
    for i in (1..values.len()).rev() {
        *state = state.wrapping_mul(6364136223846793005).wrapping_add(1442695040888963407);
        let j = ((*state >> 33) % (i as u64 + 1)) as usize;
        values.swap(i, j);
    }
}

#[test]
fn delete_all_keys_randomly() {
    let mut state: u64 = 0x2545_f491_4f6c_dd1d;
    for _i in 0..1000 {
        let mut vec: Vec<u32> = (1..200).collect();
        let mut tree = BPlusTree::new(vec.clone(), 4).unwrap();
        shuffle(&mut vec, &mut state);

        for &v in &vec {
            assert_eq!(tree.remove(&v), Some(v));
        }
    }
}
