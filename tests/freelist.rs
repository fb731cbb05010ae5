use bplustree::Freelist;

#[test]
fn test_freelist_basic_crud_works() {
    let mut list = Freelist::<String>::new();

    let test_val = "foo".to_string();
    let idx = list.push(test_val.clone());
    assert_eq!(list.len(), 1);
    assert_eq!(list.get(idx).unwrap(), &test_val);

    list.delete(idx).expect("Should have been deleted");
    assert_eq!(list.len(), 0);
}

#[test]
fn test_freelist_tombstones_works() {
    let mut list = Freelist::<String>::new();

    let test_val = "foo".to_string();
    for i in 0..10 {
        list.push(format!("{}-{}", test_val, i));
    }
    assert_eq!(list.len(), 10);
    assert_eq!(list.get(5).unwrap(), "foo-5");

    list.delete(5).expect("Should have been deleted");
    list.delete(2).expect("Should have been deleted");
    list.delete(1).expect("Should have been deleted");
    list.delete(9).expect("Should have been deleted");
    list.delete(8).expect("Should have been deleted");

    assert_eq!(list.len(), 5);
    assert_eq!(list.list_len(), 10);
    assert!(list.get(5).is_none());
    for i in 10..16 {
        println!("l: {}, ll: {}", list.len(), list.list_len());
        println!("Adding {}-{}", test_val, i);
        list.push(format!("{}-{}", test_val, i));
    }
    assert_eq!(list.len(), 11);
    assert_eq!(list.list_len(), 11);
}

#[test]
fn freed_slots_are_reused_most_recent_first() {
    let mut list = Freelist::<u32>::new();
    for i in 0..10u32 {
        assert_eq!(list.push(i * 10), i);
    }
    list.delete(5).unwrap();
    list.delete(2).unwrap();
    list.delete(1).unwrap();
    list.delete(9).unwrap();
    list.delete(8).unwrap();
    assert_eq!(list.len(), 5);
    assert_eq!(list.get(5), None);
    for i in [0u32, 3, 4, 6, 7] {
        assert_eq!(list.get(i), Some(&(i * 10)));
    }
    assert_eq!(list.push(100), 8);
    assert_eq!(list.push(101), 9);
    assert_eq!(list.push(102), 1);
    assert_eq!(list.push(103), 2);
    assert_eq!(list.push(104), 5);
    assert_eq!(list.list_len(), 10);
    assert_eq!(list.push(105), 10);
    assert_eq!(list.len(), 11);
    assert_eq!(list.list_len(), 11);
    assert_eq!(list.get(5), Some(&104));
}

#[test]
fn double_delete_is_a_no_op() {
    let mut list = Freelist::<u8>::new();
    let a = list.push(1);
    let b = list.push(2);
    assert_eq!(list.delete(a), Some(()));
    assert_eq!(list.delete(a), None);
    assert_eq!(list.len(), 1);
    assert_eq!(list.get(b), Some(&2));
    assert_eq!(list.push(3), a);
    assert_eq!(list.get(a), Some(&3));
}
