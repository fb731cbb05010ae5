use bplustree::{BTree, Key};
use std::collections::BTreeMap;

fn insert_keys<I: Iterator<Item = u128>>(btree: &mut BTree, keys: I) {
    let mut key: Key = [0; 1];
    let mut expected_len: u128 = 0;
    for n in keys {
        key[0] = n;
        btree.insert(key, 0);
        expected_len += 1;
        if expected_len < btree.total_len() as u128 {
            panic!("tree holds more keys than were inserted");
        }
    }
}

fn read_keys<I: Iterator<Item = u128>>(btree: &BTree, keys: I) {
    let mut key: Key = [0; 1];
    for n in keys {
        key[0] = n;
        assert!(btree.get(&key).is_some());
    }
}

fn delete_keys<I: Iterator<Item = u128>>(btree: &mut BTree, keys: I) {
    let mut key: Key = [0; 1];
    for n in keys {
        key[0] = n;
        assert!(btree.delete(&key));
    }
}

#[test]
fn test_asc_crud_btree() {
    let nb_keys = 1000;
    let mut btree = BTree::new();
    insert_keys(&mut btree, 0..nb_keys);
    read_keys(&btree, 0..nb_keys);
    delete_keys(&mut btree, 0..nb_keys);
    assert!(btree.total_len() == 0)
}

#[test]
fn test_desc_crud_btree() {
    let nb_keys = 5;
    let mut btree = BTree::new();
    insert_keys(&mut btree, (0..nb_keys).rev());
    read_keys(&btree, (0..nb_keys).rev());
    delete_keys(&mut btree, (0..nb_keys).rev());
    assert!(btree.total_len() == 0)
}

#[test]
fn ascending_lifecycle_counts_and_clears() {
    let mut btree = BTree::new();
    for n in 0..1000u128 {
        btree.insert([n], (n % 251) as u8);
    }
    assert_eq!(btree.total_len(), 1000);
    for n in 0..1000u128 {
        assert_eq!(btree.get(&[n]), Some((n % 251) as u8));
    }
    for n in 0..1000u128 {
        assert!(btree.delete(&[n]));
    }
    assert_eq!(btree.total_len(), 0);
    for n in 0..1000u128 {
        assert_eq!(btree.get(&[n]), None);
    }
}

#[test]
fn descending_lifecycle_counts_and_clears() {
    let mut btree = BTree::new();
    for n in (0..1000u128).rev() {
        btree.insert([n], 7);
    }
    assert_eq!(btree.total_len(), 1000);
    for n in (0..1000u128).rev() {
        assert_eq!(btree.get(&[n]), Some(7));
    }
    for n in (0..1000u128).rev() {
        assert!(btree.delete(&[n]));
        assert_eq!(btree.total_len() as u128, n);
    }
    assert_eq!(btree.total_len(), 0);
}

#[test]
fn empty_tree_has_nothing() {
    let mut btree = BTree::new();
    assert_eq!(btree.total_len(), 0);
    assert_eq!(btree.get(&[0]), None);
    assert!(!btree.delete(&[0]));
    assert_eq!(btree.total_len(), 0);
}

#[test]
fn overwrite_keeps_one_entry_with_second_value() {
    let mut btree = BTree::new();
    btree.insert([42], 1);
    btree.insert([42], 2);
    assert_eq!(btree.total_len(), 1);
    assert_eq!(btree.get(&[42]), Some(2));
}

#[test]
fn overwrite_in_a_deep_tree() {
    let mut btree = BTree::new();
    for n in 0..500u128 {
        btree.insert([n * 3], 1);
    }
    for n in 0..500u128 {
        btree.insert([n * 3], 2);
    }
    assert_eq!(btree.total_len(), 500);
    for n in 0..500u128 {
        assert_eq!(btree.get(&[n * 3]), Some(2));
        assert_eq!(btree.get(&[n * 3 + 1]), None);
    }
}

#[test]
fn key_equal_to_pivot_is_found() {
    // Thirteen entries fill the root leaf; the fourteenth insert splits it
    // around key 6, which becomes the root's pivot.
    let mut btree = BTree::new();
    for n in 0..14u128 {
        btree.insert([n], n as u8 + 100);
    }
    assert_eq!(btree.get(&[6]), Some(106));
    assert_eq!(btree.get(&[5]), Some(105));
    assert_eq!(btree.get(&[7]), Some(107));
    assert!(btree.delete(&[6]));
    assert_eq!(btree.get(&[6]), None);
    assert_eq!(btree.get(&[7]), Some(107));
    btree.insert([6], 1);
    assert_eq!(btree.get(&[6]), Some(1));
    assert_eq!(btree.total_len(), 14);
}

#[test]
fn delete_true_then_absent_false_leaves_tree() {
    let mut btree = BTree::new();
    for n in 0..100u128 {
        btree.insert([n], n as u8);
    }
    assert!(btree.delete(&[50]));
    assert_eq!(btree.get(&[50]), None);
    assert!(!btree.delete(&[50]));
    assert!(!btree.delete(&[1000]));
    assert_eq!(btree.total_len(), 99);
    for n in 0..100u128 {
        if n != 50 {
            assert_eq!(btree.get(&[n]), Some(n as u8));
        }
    }
}

#[test]
fn largest_and_smallest_keys() {
    let mut btree = BTree::new();
    btree.insert([u128::MAX], 9);
    btree.insert([0], 8);
    assert_eq!(btree.get(&[u128::MAX]), Some(9));
    assert_eq!(btree.get(&[0]), Some(8));
    assert_eq!(btree.total_len(), 2);
}

#[test]
fn mixed_operations_agree_with_std_map() {
    let mut btree = BTree::new();
    let mut model: BTreeMap<u128, u8> = BTreeMap::new();
    let mut x: u64 = 12345;
    for step in 0..20000u32 {
        x = x.wrapping_mul(6364136223846793005).wrapping_add(1442695040888963407);
        let key = ((x >> 33) % 600) as u128;
        let val = (x >> 20) as u8;
        if step % 3 == 2 {
            let removed = btree.delete(&[key]);
            assert_eq!(removed, model.remove(&key).is_some());
        } else {
            btree.insert([key], val);
            model.insert(key, val);
        }
        if step % 500 == 0 {
            assert_eq!(btree.total_len(), model.len());
        }
    }
    assert_eq!(btree.total_len(), model.len());
    for key in 0..600u128 {
        assert_eq!(btree.get(&[key]), model.get(&key).copied());
    }
}
