use database::bptree::{BPlusTree, Record};
use std::collections::BTreeMap;

fn bp_keys(tree: &BPlusTree) -> Vec<i32> {
    tree.get_all_records().iter().map(|r| r.key).collect()
}

fn bp_pairs(tree: &BPlusTree) -> Vec<(i32, String)> {
    tree.get_all_records().into_iter().map(|r| (r.key, r.value)).collect()
}

fn bp_filled(keys: &[i32]) -> BPlusTree {
    let mut tree = BPlusTree::new();
    for k in keys {
        tree.insert(*k, format!("v{}", k));
    }
    tree
}

fn walk(tree: &BPlusTree) -> Vec<(i32, String)> {
    let mut out = Vec::new();
    let mut cursor = tree.start();
    while !cursor.is_end() {
        let r = tree.value(&cursor).unwrap();
        out.push((r.key, r.value));
        tree.advance(&mut cursor);
    }
    assert!(tree.value(&cursor).is_none());
    out
}

#[test]
fn bp_new_tree_is_an_empty_leaf() {
    let tree = BPlusTree::new();
    assert_eq!(tree.height(), 1);
    assert!(tree.get_all_records().is_empty());
    assert_eq!(tree.search(0), None);
    assert!(tree.start().is_end());
}

#[test]
fn bp_search_finds_what_was_inserted() {
    let tree = bp_filled(&[3, 1, 2, 9, 7, 8, 4, 6, 5]);
    for k in 1..=9 {
        assert_eq!(tree.search(k), Some(format!("v{}", k)));
    }
    assert_eq!(tree.search(0), None);
    assert_eq!(tree.search(10), None);
}

#[test]
fn bp_insert_replaces_the_value_of_a_present_key() {
    let mut tree = bp_filled(&[1, 2, 3, 4, 5, 6, 7, 8, 9]);
    tree.insert(5, "five".to_string());
    tree.insert(1, "one".to_string());
    tree.insert(9, "nine".to_string());
    assert_eq!(tree.search(5), Some("five".to_string()));
    assert_eq!(tree.search(1), Some("one".to_string()));
    assert_eq!(tree.search(9), Some("nine".to_string()));
    assert_eq!(bp_keys(&tree), vec![1, 2, 3, 4, 5, 6, 7, 8, 9]);
}

#[test]
fn bp_scan_after_inserts_is_ascending_with_last_values() {
    let mut tree = BPlusTree::new();
    let ops = [(7, "a"), (3, "b"), (9, "c"), (3, "d"), (1, "e"), (7, "f"), (8, "g")];
    for (k, v) in ops {
        tree.insert(k, v.to_string());
    }
    assert_eq!(
        bp_pairs(&tree),
        vec![
            (1, "e".to_string()),
            (3, "d".to_string()),
            (7, "f".to_string()),
            (8, "g".to_string()),
            (9, "c".to_string()),
        ]
    );
}

#[test]
fn bp_full_leaf_root_splits_on_the_next_key() {
    let mut tree = BPlusTree::new();
    for k in 1..=3 {
        tree.insert(k, k.to_string());
        assert_eq!(tree.height(), 1);
    }
    tree.insert(4, "4".to_string());
    assert_eq!(tree.height(), 2);
    assert_eq!(bp_keys(&tree), vec![1, 2, 3, 4]);
}

#[test]
fn bp_scenario_of_eight_keys() {
    let mut tree = BPlusTree::new();
    for k in [10, 20, 5, 6, 12, 30, 7, 17] {
        tree.insert(k, format!("v{}", k));
    }
    let expected: Vec<(i32, String)> =
        [5, 6, 7, 10, 12, 17, 20, 30].iter().map(|k| (*k, format!("v{}", k))).collect();
    assert_eq!(bp_pairs(&tree), expected);
    assert_eq!(walk(&tree), expected);
    assert!(tree.height() >= 2);

    assert!(tree.delete(6));
    assert!(tree.delete(7));
    let expected: Vec<(i32, String)> =
        [5, 10, 12, 17, 20, 30].iter().map(|k| (*k, format!("v{}", k))).collect();
    assert_eq!(bp_pairs(&tree), expected);
    assert_eq!(walk(&tree), expected);
    assert_eq!(tree.search(6), None);
    assert_eq!(tree.search(7), None);
    for k in [5, 10, 12, 17, 20, 30] {
        assert_eq!(tree.search(k), Some(format!("v{}", k)));
    }
}

#[test]
fn bp_delete_then_search_finds_nothing() {
    let mut tree = bp_filled(&[4, 8, 15, 16, 23, 42]);
    for k in [15, 4, 42, 8, 23, 16] {
        assert!(tree.delete(k));
        assert_eq!(tree.search(k), None);
    }
    assert!(tree.get_all_records().is_empty());
    assert_eq!(tree.height(), 1);
}

#[test]
fn bp_deleting_an_absent_key_changes_nothing() {
    let mut tree = bp_filled(&[10, 20, 5, 6, 12, 30, 7, 17]);
    let before = bp_pairs(&tree);
    let height = tree.height();
    assert!(!tree.delete(11));
    assert!(!tree.delete(-1));
    assert!(!tree.delete(31));
    assert_eq!(bp_pairs(&tree), before);
    assert_eq!(tree.height(), height);
    let mut empty = BPlusTree::new();
    assert!(!empty.delete(1));
}

#[test]
fn bp_delete_from_a_leaf_above_the_floor_keeps_the_height() {
    // 1..=4 gives two leaves of two records; 5 fills the right leaf.
    let mut tree = bp_filled(&[1, 2, 3, 4, 5]);
    assert_eq!(tree.height(), 2);
    assert!(tree.delete(5));
    assert!(tree.delete(4));
    assert!(tree.delete(1));
    assert_eq!(tree.height(), 2);
    assert_eq!(bp_keys(&tree), vec![2, 3]);
}

#[test]
fn bp_delete_below_the_floor_borrows_or_merges() {
    let mut tree = bp_filled(&[1, 2, 3, 4]);
    assert_eq!(tree.height(), 2);
    assert!(tree.delete(4));
    // The right leaf holds one record, the floor. Taking it borrows from the left.
    assert!(tree.delete(3));
    assert_eq!(tree.height(), 2);
    assert_eq!(bp_keys(&tree), vec![1, 2]);
    assert_eq!(walk(&tree).len(), 2);
    // Now no leaf has a record to spare: the leaves become one and the root goes.
    assert!(tree.delete(2));
    assert_eq!(tree.height(), 1);
    assert_eq!(bp_keys(&tree), vec![1]);
    assert!(tree.delete(1));
    assert!(tree.start().is_end());
}

#[test]
fn bp_delete_smallest_keys_keeps_lookups_right() {
    let mut tree = bp_filled(&[1, 2, 3, 4, 5, 6, 7, 8, 9, 10, 11, 12, 13, 14, 15, 16]);
    assert!(tree.height() >= 3);
    for k in 1..=16 {
        assert!(tree.delete(k));
        for j in 1..=16 {
            let expected = if j > k { Some(format!("v{}", j)) } else { None };
            assert_eq!(tree.search(j), expected);
        }
        let rest: Vec<i32> = ((k + 1)..=16).collect();
        assert_eq!(bp_keys(&tree), rest);
    }
    assert_eq!(tree.height(), 1);
}

#[test]
fn bp_delete_largest_keys_keeps_lookups_right() {
    let mut tree = bp_filled(&[1, 2, 3, 4, 5, 6, 7, 8, 9, 10, 11, 12, 13, 14, 15, 16]);
    for k in (1..=16).rev() {
        assert!(tree.delete(k));
        let rest: Vec<i32> = (1..k).collect();
        assert_eq!(bp_keys(&tree), rest);
        assert_eq!(walk(&tree).len(), rest.len());
    }
}

#[test]
fn bp_cursor_walks_every_record_once() {
    let tree = bp_filled(&[9, 8, 7, 6, 5, 4, 3, 2, 1, 0]);
    let walked = walk(&tree);
    assert_eq!(walked, bp_pairs(&tree));
    assert_eq!(walked.len(), 10);
    let mut cursor = tree.start();
    assert_eq!(tree.value(&cursor).map(|r| r.key), Some(0));
    tree.advance(&mut cursor);
    assert_eq!(tree.value(&cursor).map(|r| r.key), Some(1));
}

#[test]
fn bp_cursor_at_the_end_stays_there() {
    let tree = bp_filled(&[1]);
    let mut cursor = tree.start();
    assert!(!cursor.is_end());
    tree.advance(&mut cursor);
    assert!(cursor.is_end());
    tree.advance(&mut cursor);
    assert!(cursor.is_end());
    assert!(tree.value(&cursor).is_none());
}

#[test]
fn bp_from_records_keeps_the_later_of_two() {
    let records = vec![
        Record { key: 2, value: "two".to_string() },
        Record { key: 1, value: "one".to_string() },
        Record { key: 2, value: "zwei".to_string() },
    ];
    let tree = BPlusTree::from_records(&records);
    assert_eq!(bp_pairs(&tree), vec![(1, "one".to_string()), (2, "zwei".to_string())]);
}

#[test]
fn bp_agrees_with_a_map_over_many_operations() {
    let mut tree = BPlusTree::new();
    let mut model: BTreeMap<i32, String> = BTreeMap::new();
    let mut state: u64 = 0x9e37_79b9_7f4a_7c15;
    for step in 0..6000 {
        state = state.wrapping_mul(6364136223846793005).wrapping_add(1442695040888963407);
        let key = ((state >> 33) % 131) as i32 - 65;
        let remove = (state >> 20) % 5 < 2;
        if remove {
            assert_eq!(tree.delete(key), model.remove(&key).is_some());
        } else {
            let value = format!("{}-{}", key, step);
            tree.insert(key, value.clone());
            model.insert(key, value);
        }
        assert_eq!(tree.search(key), model.get(&key).cloned());
        assert!(tree.invariants_hold());
        if step % 40 == 0 {
            let expected: Vec<(i32, String)> =
                model.iter().map(|(k, v)| (*k, v.clone())).collect();
            assert_eq!(bp_pairs(&tree), expected);
            assert_eq!(walk(&tree), expected);
            for k in -70..70 {
                assert_eq!(tree.search(k), model.get(&k).cloned());
            }
        }
    }
    let keys: Vec<i32> = model.keys().cloned().collect();
    for k in keys {
        assert!(tree.delete(k));
    }
    assert!(tree.get_all_records().is_empty());
    assert_eq!(tree.height(), 1);
}

#[test]
fn bp_invariants_hold_after_every_operation() {
    let mut tree = BPlusTree::new();
    assert!(tree.invariants_hold());
    for k in [10, 20, 5, 6, 12, 30, 7, 17, 3, 4, 25, 26, 27, 1, 2, 40, 50, 60, 70, 80] {
        tree.insert(k, k.to_string());
        assert!(tree.invariants_hold());
        let sizes = tree.leaf_sizes();
        assert_eq!(sizes.iter().sum::<usize>(), tree.get_all_records().len());
        assert!(sizes.len() == 1 || sizes.iter().all(|n| (1..=3).contains(n)));
    }
    for k in [6, 7, 10, 80, 1, 2, 3, 4, 5, 12, 17, 20, 25, 26, 27, 30, 40, 50, 60, 70] {
        assert!(tree.delete(k));
        assert!(tree.invariants_hold());
        let sizes = tree.leaf_sizes();
        assert!(sizes.len() == 1 || sizes.iter().all(|n| (1..=3).contains(n)));
    }
    assert_eq!(tree.leaf_sizes(), vec![0]);
}

#[test]
fn bp_leaf_splits_in_halves() {
    let mut tree = bp_filled(&[1, 2, 3]);
    assert_eq!(tree.leaf_sizes(), vec![3]);
    tree.insert(4, "v4".to_string());
    assert_eq!(tree.leaf_sizes(), vec![2, 2]);
    tree.insert(5, "v5".to_string());
    assert_eq!(tree.leaf_sizes(), vec![2, 3]);
    tree.insert(6, "v6".to_string());
    assert_eq!(tree.leaf_sizes(), vec![2, 2, 2]);
    tree.insert(0, "v0".to_string());
    assert_eq!(tree.leaf_sizes(), vec![3, 2, 2]);
    // A value written again splits nothing.
    tree.insert(0, "zero".to_string());
    assert_eq!(tree.leaf_sizes(), vec![3, 2, 2]);
}

#[test]
fn bp_delete_above_the_floor_moves_nothing() {
    let mut tree = bp_filled(&[1, 2, 3, 4, 5, 6, 0]);
    assert_eq!(tree.leaf_sizes(), vec![3, 2, 2]);
    assert!(tree.delete(1));
    assert_eq!(tree.leaf_sizes(), vec![2, 2, 2]);
    assert!(tree.delete(3));
    assert_eq!(tree.leaf_sizes(), vec![2, 1, 2]);
    assert!(tree.delete(5));
    assert_eq!(tree.leaf_sizes(), vec![2, 1, 1]);
    assert_eq!(bp_keys(&tree), vec![0, 2, 4, 6]);
}

#[test]
fn bp_delete_at_the_floor_borrows_from_the_left() {
    let mut tree = bp_filled(&[1, 2, 3, 4, 5, 6, 0]);
    assert!(tree.delete(3));
    assert_eq!(tree.leaf_sizes(), vec![3, 1, 2]);
    // The middle leaf holds one record; its left neighbour has one to spare.
    assert!(tree.delete(4));
    assert_eq!(tree.leaf_sizes(), vec![2, 1, 2]);
    assert_eq!(bp_keys(&tree), vec![0, 1, 2, 5, 6]);
    assert!(tree.invariants_hold());
    assert_eq!(tree.search(2), Some("v2".to_string()));
}

#[test]
fn bp_delete_at_the_floor_borrows_from_the_right() {
    let mut tree = bp_filled(&[1, 2, 3, 4, 5, 6]);
    assert_eq!(tree.leaf_sizes(), vec![2, 2, 2]);
    assert!(tree.delete(1));
    assert_eq!(tree.leaf_sizes(), vec![1, 2, 2]);
    // The first leaf holds one record and has no left neighbour.
    assert!(tree.delete(2));
    assert_eq!(tree.leaf_sizes(), vec![1, 1, 2]);
    assert_eq!(bp_keys(&tree), vec![3, 4, 5, 6]);
    assert!(tree.invariants_hold());
    for k in 3..=6 {
        assert_eq!(tree.search(k), Some(format!("v{}", k)));
    }
}

#[test]
fn bp_delete_at_the_floor_merges_where_no_neighbour_can_spare() {
    let mut tree = bp_filled(&[1, 2, 3, 4, 5, 6]);
    assert!(tree.delete(1));
    assert!(tree.delete(3));
    assert!(tree.delete(5));
    assert_eq!(tree.leaf_sizes(), vec![1, 1, 1]);
    assert!(tree.delete(4));
    assert_eq!(tree.leaf_sizes(), vec![1, 1]);
    assert_eq!(bp_keys(&tree), vec![2, 6]);
    assert!(tree.invariants_hold());
    assert!(tree.delete(2));
    assert_eq!(tree.leaf_sizes(), vec![1]);
    assert_eq!(tree.height(), 1);
    assert!(tree.invariants_hold());
}

#[test]
fn bplus_insert_gives_the_value_that_the_key_had() {
    let mut tree = BPlusTree::new();
    assert_eq!(tree.insert(1, "a".to_string()), None);
    assert_eq!(tree.insert(1, "b".to_string()), Some("a".to_string()));
    assert_eq!(tree.insert(2, "c".to_string()), None);
    assert_eq!(tree.search(1), Some("b".to_string()));
}

#[test]
fn bplus_inner_node_is_cut_in_the_middle() {
    let mut tree = BPlusTree::new();
    assert!(tree.root_separators().is_empty());
    assert_eq!(tree.root_fanout(), 0);
    for k in 1..=9 {
        tree.insert(k, k.to_string());
    }
    assert_eq!(tree.root_separators(), vec![3, 5, 7]);
    assert_eq!(tree.root_fanout(), 4);
    assert_eq!(tree.height(), 2);
    assert_eq!(tree.leaf_sizes(), vec![2, 2, 2, 3]);
    // A key of the tree cuts nothing, also where its leaf is full.
    assert_eq!(tree.insert(8, "eight".to_string()), Some("8".to_string()));
    assert_eq!(tree.root_separators(), vec![3, 5, 7]);
    assert_eq!(tree.height(), 2);
    // The last leaf and the root are full: both are cut, and the middle
    // one of the keys 3, 5, 7, 9 moves up into a new root.
    assert_eq!(tree.insert(10, "10".to_string()), None);
    assert_eq!(tree.height(), 3);
    assert_eq!(tree.root_separators(), vec![7]);
    assert_eq!(tree.root_fanout(), 2);
    assert_eq!(tree.leaf_sizes(), vec![2, 2, 2, 2, 2]);
}

#[test]
fn bplus_root_takes_the_key_that_comes_up() {
    let mut tree = BPlusTree::new();
    for k in [10, 20, 30, 40] {
        tree.insert(k, k.to_string());
    }
    assert_eq!(tree.root_separators(), vec![30]);
    tree.insert(5, "5".to_string());
    assert_eq!(tree.root_separators(), vec![30]);
    tree.insert(7, "7".to_string());
    // The first leaf held 5, 10, 20 and is cut behind 7.
    assert_eq!(tree.root_separators(), vec![10, 30]);
    assert_eq!(tree.leaf_sizes(), vec![2, 2, 2]);
}

#[test]
fn bplus_short_leaf_takes_from_the_left_before_the_right() {
    let mut tree = BPlusTree::new();
    for k in 1..=6 {
        tree.insert(k, k.to_string());
    }
    assert_eq!(tree.leaf_sizes(), vec![2, 2, 2]);
    // The middle leaf can spare a record.
    assert!(tree.delete(4));
    assert_eq!(tree.leaf_sizes(), vec![2, 1, 2]);
    assert_eq!(tree.root_separators(), vec![3, 5]);
    // Now it cannot, and both neighbours can: the record comes from the left.
    assert!(tree.delete(3));
    assert_eq!(tree.leaf_sizes(), vec![1, 1, 2]);
    assert_eq!(tree.root_separators(), vec![2, 5]);
    // The left neighbour cannot spare one, the right one can.
    assert!(tree.delete(2));
    assert_eq!(tree.leaf_sizes(), vec![1, 1, 1]);
    assert_eq!(tree.root_separators(), vec![5, 6]);
    // Neither can: the leaf becomes one with the leaf before it.
    assert!(tree.delete(5));
    assert_eq!(tree.leaf_sizes(), vec![1, 1]);
    assert_eq!(tree.root_separators(), vec![6]);
    // The first leaf has none before it: it becomes one with the leaf behind it.
    assert!(tree.delete(1));
    assert_eq!(tree.leaf_sizes(), vec![1]);
    assert_eq!(tree.height(), 1);
    assert_eq!(bp_keys(&tree), vec![6]);
    assert!(tree.invariants_hold());
}

#[test]
fn bplus_first_leaf_at_the_floor_takes_from_the_right() {
    let mut tree = BPlusTree::new();
    for k in 1..=5 {
        tree.insert(k, k.to_string());
    }
    assert_eq!(tree.leaf_sizes(), vec![2, 3]);
    assert!(tree.delete(1));
    assert_eq!(tree.leaf_sizes(), vec![1, 3]);
    assert!(tree.delete(2));
    assert_eq!(tree.leaf_sizes(), vec![1, 2]);
    assert_eq!(tree.root_separators(), vec![4]);
    assert_eq!(bp_keys(&tree), vec![3, 4, 5]);
}
