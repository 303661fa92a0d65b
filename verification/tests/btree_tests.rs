use database::btree::{is_ascending, BTree, Record, MAX_KEYS, MIN_KEYS, ORDER};
use std::collections::BTreeMap;

fn keys_of(tree: &BTree) -> Vec<i32> {
    tree.get_all_records().iter().map(|r| r.key).collect()
}

fn pairs_of(tree: &BTree) -> Vec<(i32, String)> {
    tree.get_all_records().into_iter().map(|r| (r.key, r.value)).collect()
}

fn filled(keys: &[i32]) -> BTree {
    let mut tree = BTree::new();
    for k in keys {
        tree.insert(*k, format!("v{}", k));
    }
    tree
}

#[test]
fn constants_follow_the_order() {
    assert_eq!(ORDER, 4);
    assert_eq!(MAX_KEYS, 3);
    assert_eq!(MIN_KEYS, 1);
}

#[test]
fn new_tree_is_an_empty_leaf() {
    let tree = BTree::new();
    assert_eq!(tree.height(), 1);
    assert!(tree.get_all_records().is_empty());
    assert_eq!(tree.search(0), None);
}

#[test]
fn search_finds_what_was_inserted() {
    let tree = filled(&[3, 1, 2]);
    assert_eq!(tree.search(1), Some("v1".to_string()));
    assert_eq!(tree.search(2), Some("v2".to_string()));
    assert_eq!(tree.search(3), Some("v3".to_string()));
    assert_eq!(tree.search(4), None);
    assert_eq!(tree.search(0), None);
}

#[test]
fn insert_replaces_the_value_of_a_present_key() {
    let mut tree = filled(&[1, 2, 3, 4, 5, 6, 7, 8, 9]);
    tree.insert(5, "five".to_string());
    tree.insert(1, "one".to_string());
    tree.insert(9, "nine".to_string());
    assert_eq!(tree.search(5), Some("five".to_string()));
    assert_eq!(tree.search(1), Some("one".to_string()));
    assert_eq!(tree.search(9), Some("nine".to_string()));
    assert_eq!(keys_of(&tree), vec![1, 2, 3, 4, 5, 6, 7, 8, 9]);
}

#[test]
fn scan_after_inserts_is_ascending_with_last_values() {
    let mut tree = BTree::new();
    let ops = [(7, "a"), (3, "b"), (9, "c"), (3, "d"), (1, "e"), (7, "f"), (8, "g")];
    for (k, v) in ops {
        tree.insert(k, v.to_string());
    }
    assert_eq!(
        pairs_of(&tree),
        vec![
            (1, "e".to_string()),
            (3, "d".to_string()),
            (7, "f".to_string()),
            (8, "g".to_string()),
            (9, "c".to_string()),
        ]
    );
}

#[test]
fn full_leaf_root_splits_on_the_next_key() {
    let mut tree = BTree::new();
    for k in 1..=3 {
        tree.insert(k, k.to_string());
        assert_eq!(tree.height(), 1);
    }
    tree.insert(4, "4".to_string());
    assert_eq!(tree.height(), 2);
    assert_eq!(keys_of(&tree), vec![1, 2, 3, 4]);
}

#[test]
fn scenario_of_eight_keys() {
    let mut tree = BTree::new();
    for k in [10, 20, 5, 6, 12, 30, 7, 17] {
        tree.insert(k, format!("v{}", k));
    }
    let expected: Vec<(i32, String)> =
        [5, 6, 7, 10, 12, 17, 20, 30].iter().map(|k| (*k, format!("v{}", k))).collect();
    assert_eq!(pairs_of(&tree), expected);
    assert!(tree.height() >= 2);

    assert!(tree.delete(6));
    assert!(tree.delete(7));
    let expected: Vec<(i32, String)> =
        [5, 10, 12, 17, 20, 30].iter().map(|k| (*k, format!("v{}", k))).collect();
    assert_eq!(pairs_of(&tree), expected);
    assert_eq!(tree.search(6), None);
    assert_eq!(tree.search(7), None);
    for k in [5, 10, 12, 17, 20, 30] {
        assert_eq!(tree.search(k), Some(format!("v{}", k)));
    }
}

#[test]
fn delete_then_search_finds_nothing() {
    let mut tree = filled(&[4, 8, 15, 16, 23, 42]);
    for k in [15, 4, 42, 8, 23, 16] {
        assert!(tree.delete(k));
        assert_eq!(tree.search(k), None);
    }
    assert!(tree.get_all_records().is_empty());
    assert_eq!(tree.height(), 1);
}

#[test]
fn deleting_an_absent_key_changes_nothing() {
    let mut tree = filled(&[10, 20, 5, 6, 12, 30, 7, 17]);
    let before = pairs_of(&tree);
    let height = tree.height();
    assert!(!tree.delete(11));
    assert!(!tree.delete(-1));
    assert!(!tree.delete(31));
    assert_eq!(pairs_of(&tree), before);
    assert_eq!(tree.height(), height);
    let mut empty = BTree::new();
    assert!(!empty.delete(1));
}

#[test]
fn delete_from_a_leaf_above_the_floor_keeps_the_height() {
    // 1..=4 gives a root with one key over two leaves; 5 and 6 fill the right leaf.
    let mut tree = filled(&[1, 2, 3, 4, 5, 6]);
    assert_eq!(tree.height(), 2);
    assert!(tree.delete(6));
    assert!(tree.delete(5));
    assert_eq!(tree.height(), 2);
    assert_eq!(keys_of(&tree), vec![1, 2, 3, 4]);
}

#[test]
fn delete_below_the_floor_borrows_or_merges() {
    let mut tree = filled(&[1, 2, 3, 4]);
    assert_eq!(tree.height(), 2);
    // The right leaf holds one key, the floor; the left leaf has one to spare.
    assert!(tree.delete(4));
    assert_eq!(tree.height(), 2);
    assert_eq!(keys_of(&tree), vec![1, 2, 3]);
    // Now no leaf has a key to spare: the leaves become one and the root goes.
    assert!(tree.delete(3));
    assert_eq!(tree.height(), 1);
    assert_eq!(keys_of(&tree), vec![1, 2]);
}

#[test]
fn delete_key_of_an_inner_node() {
    let mut tree = filled(&[1, 2, 3, 4, 5, 6, 7, 8, 9, 10, 11, 12, 13]);
    assert!(tree.height() >= 3);
    for k in [3, 6, 9, 12, 7, 5, 1, 13] {
        assert!(tree.delete(k));
        assert_eq!(tree.search(k), None);
    }
    assert_eq!(keys_of(&tree), vec![2, 4, 8, 10, 11]);
}

#[test]
fn from_records_keeps_the_later_of_two() {
    let records = vec![
        Record { key: 2, value: "two".to_string() },
        Record { key: 1, value: "one".to_string() },
        Record { key: 2, value: "zwei".to_string() },
    ];
    let tree = BTree::from_records(&records);
    assert_eq!(pairs_of(&tree), vec![(1, "one".to_string()), (2, "zwei".to_string())]);
}

#[test]
fn extreme_keys_are_ordinary_keys() {
    let mut tree = filled(&[i32::MAX, i32::MIN, 0, -1, 1]);
    assert_eq!(keys_of(&tree), vec![i32::MIN, -1, 0, 1, i32::MAX]);
    assert!(tree.delete(i32::MIN));
    assert!(tree.delete(i32::MAX));
    assert_eq!(keys_of(&tree), vec![-1, 0, 1]);
}

#[test]
fn agrees_with_a_map_over_many_operations() {
    let mut tree = BTree::new();
    let mut model: BTreeMap<i32, String> = BTreeMap::new();
    let mut state: u64 = 0x2545_f491_4f6c_dd1d;
    for step in 0..4000 {
        state = state.wrapping_mul(6364136223846793005).wrapping_add(1442695040888963407);
        let key = ((state >> 33) % 97) as i32 - 48;
        let remove = (state >> 20) % 3 == 0;
        if remove {
            assert_eq!(tree.delete(key), model.remove(&key).is_some());
        } else {
            let value = format!("{}-{}", key, step);
            tree.insert(key, value.clone());
            model.insert(key, value);
        }
        assert_eq!(tree.search(key), model.get(&key).cloned());
        assert!(tree.invariants_hold());
        if step % 50 == 0 {
            let expected: Vec<(i32, String)> =
                model.iter().map(|(k, v)| (*k, v.clone())).collect();
            assert_eq!(pairs_of(&tree), expected);
        }
    }
    let keys: Vec<i32> = model.keys().cloned().collect();
    for k in keys {
        assert!(tree.delete(k));
    }
    assert!(tree.get_all_records().is_empty());
    assert_eq!(tree.height(), 1);
}

#[test]
fn invariants_hold_after_every_operation() {
    let mut tree = BTree::new();
    assert!(tree.invariants_hold());
    for k in [10, 20, 5, 6, 12, 30, 7, 17, 3, 4, 25, 26, 27, 1, 2, 40, 50, 60, 70, 80] {
        tree.insert(k, k.to_string());
        assert!(tree.invariants_hold());
    }
    for k in [6, 7, 10, 80, 1, 2, 3, 4, 5, 12, 17, 20, 25, 26, 27, 30, 40, 50, 60, 70] {
        assert!(tree.delete(k));
        assert!(tree.invariants_hold());
    }
    assert!(tree.get_all_records().is_empty());
}

#[test]
fn ascending_check_on_records() {
    let rec = |k: i32| Record { key: k, value: String::new() };
    assert!(is_ascending(&vec![]));
    assert!(is_ascending(&vec![rec(5)]));
    assert!(is_ascending(&vec![rec(-1), rec(0), rec(7)]));
    assert!(!is_ascending(&vec![rec(1), rec(1)]));
    assert!(!is_ascending(&vec![rec(1), rec(3), rec(2)]));
}

#[test]
fn insert_gives_the_value_that_the_key_had() {
    let mut tree = BTree::new();
    assert_eq!(tree.insert(1, "a".to_string()), None);
    assert_eq!(tree.insert(2, "b".to_string()), None);
    assert_eq!(tree.insert(1, "c".to_string()), Some("a".to_string()));
    assert_eq!(tree.insert(1, "d".to_string()), Some("c".to_string()));
    assert_eq!(tree.search(1), Some("d".to_string()));
    assert_eq!(keys_of(&tree), vec![1, 2]);
}

#[test]
fn full_root_is_cut_in_the_middle() {
    let mut tree = filled(&[1, 2, 3]);
    assert_eq!(tree.node_keys(), vec![vec![1, 2, 3]]);
    tree.insert(4, "v4".to_string());
    // The new root has one key, the middle one, and two subtrees.
    assert_eq!(tree.node_keys(), vec![vec![3], vec![1, 2], vec![4]]);
    assert_eq!(tree.height(), 2);
}

#[test]
fn replacing_a_value_leaves_every_node_as_it_was() {
    let mut tree = filled(&[1, 2, 3, 4, 5, 6, 7, 8, 9, 10, 11, 12, 13]);
    let rows = tree.node_keys();
    let height = tree.height();
    for k in 1..=13 {
        assert_eq!(tree.insert(k, "again".to_string()), Some(format!("v{}", k)));
        assert_eq!(tree.node_keys(), rows);
        assert_eq!(tree.height(), height);
    }
    // A full leaf is not cut where the key is one of its keys.
    let mut tree = filled(&[1, 2, 3]);
    assert_eq!(tree.insert(2, "two".to_string()), Some("v2".to_string()));
    assert_eq!(tree.node_keys(), vec![vec![1, 2, 3]]);
}

#[test]
fn key_of_a_leaf_that_can_spare_it_leaves_the_other_nodes_alone() {
    let mut tree = filled(&[1, 2, 3, 4]);
    assert_eq!(tree.node_keys(), vec![vec![3], vec![1, 2], vec![4]]);
    assert!(tree.delete(1));
    assert_eq!(tree.node_keys(), vec![vec![3], vec![2], vec![4]]);
    assert_eq!(tree.height(), 2);
}

#[test]
fn key_of_an_inner_node_is_replaced_from_the_neighbour_that_can_spare() {
    let mut tree = filled(&[1, 2, 3, 4, 5, 6, 7]);
    assert_eq!(tree.node_keys(), vec![vec![3, 6], vec![1, 2], vec![4, 5], vec![7]]);
    assert!(tree.delete(2));
    assert_eq!(tree.node_keys(), vec![vec![3, 6], vec![1], vec![4, 5], vec![7]]);
    // The subtree before the key is at the floor, the one behind it is not:
    // the first key behind takes the place of the key.
    assert!(tree.delete(3));
    assert_eq!(tree.node_keys(), vec![vec![4, 6], vec![1], vec![5], vec![7]]);
    // Now neither can spare: the two subtrees become one and the key is lost.
    assert!(tree.delete(4));
    assert_eq!(tree.node_keys(), vec![vec![6], vec![1, 5], vec![7]]);
    // The subtree before the key can spare: the last key before takes its place.
    assert!(tree.delete(6));
    assert_eq!(tree.node_keys(), vec![vec![5], vec![1], vec![7]]);
}

#[test]
fn short_leaf_takes_from_the_left_before_the_right() {
    // Root [3, 6] over [1, 2], [4], [7, 8]: both neighbours of the middle
    // leaf can spare a key.
    let mut tree = filled(&[1, 2, 3, 4, 5, 6, 7, 8]);
    assert!(tree.delete(5));
    assert_eq!(tree.node_keys(), vec![vec![3, 6], vec![1, 2], vec![4], vec![7, 8]]);
    assert!(tree.delete(4));
    assert_eq!(tree.node_keys(), vec![vec![2, 6], vec![1], vec![3], vec![7, 8]]);
    // Now only the right neighbour can.
    assert!(tree.delete(3));
    assert_eq!(tree.node_keys(), vec![vec![2, 7], vec![1], vec![6], vec![8]]);
    // Now none can: the leaf becomes one with its left neighbour.
    assert!(tree.delete(6));
    assert_eq!(tree.node_keys(), vec![vec![7], vec![1, 2], vec![8]]);
}
