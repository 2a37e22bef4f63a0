use linked_lists::cs120::List;

fn show(list: &List) {
    println!("length: {} values: {:?}", list.len(), list.values());
}

#[test]
fn cs120_basics() {
    let mut list = List::new();

    // Inserting into empty list should work (return true)
    assert_eq!(list.insert(10), true);

    // Inserting same element to list with single element should return false
    assert_eq!(list.insert(10), false);

    // Inserting value greater than 10 should work (but disallow duplicates)
    assert_eq!(list.insert(20), true);

    // Inserting values less than 10 should work
    assert_eq!(list.insert(9), true);
    assert_eq!(list.insert(8), true);

    show(&list);

    // Inserting between existing values should work
    assert_eq!(list.insert(11), true);
    assert_eq!(list.insert(12), true);

    // Inserting at end should work
    assert_eq!(list.insert(21), true);

    // Inserting values that already exist should fail
    assert_eq!(list.insert(9), false);
    assert_eq!(list.insert(8), false);
    assert_eq!(list.insert(21), false);

    // Inserting at beginning and end should still work
    assert_eq!(list.insert(7), true);
    assert_eq!(list.insert(22), true);

    show(&list);

    // Deleting from beginning and end should work
    assert_eq!(list.delete(7), true);
    assert_eq!(list.delete(22), true);

    // Deleting from middle should work
    assert_eq!(list.delete(11), true);
    assert_eq!(list.delete(12), true);

    // Deleting already deleted elements should fail
    assert_eq!(list.delete(7), false);
    assert_eq!(list.delete(22), false);
    assert_eq!(list.delete(12), false);

    show(&list);

    let mut list2 = List::new();

    // Deleting from empty list should fail
    assert_eq!(list2.delete(1), false);

    assert_eq!(list2.insert(1), true);

    // Deleting only element from list should work
    assert_eq!(list2.delete(1), true);

    assert_eq!(list2.insert(1), true);
    assert_eq!(list2.insert(2), true);
    assert_eq!(list2.delete(1), true);
    assert_eq!(list2.delete(1), false);

    show(&list2);
}

#[test]
fn delete_from_empty_set() {
    let mut list = List::new();
    assert_eq!(list.delete(1), false);
    assert_eq!(list.len(), 0);
    assert_eq!(list.values(), Vec::<i32>::new());
}

#[test]
fn duplicate_insert_changes_nothing() {
    let mut list = List::new();
    assert_eq!(list.insert(10), true);
    assert_eq!(list.insert(10), false);
    assert_eq!(list.values(), vec![10]);
    assert_eq!(list.len(), 1);
}

#[test]
fn inserts_keep_order() {
    let mut list = List::new();
    assert_eq!(list.insert(10), true);
    assert_eq!(list.insert(20), true);
    assert_eq!(list.insert(9), true);
    assert_eq!(list.insert(8), true);
    assert_eq!(list.values(), vec![8, 9, 10, 20]);
    assert_eq!(list.insert(11), true);
    assert_eq!(list.insert(12), true);
    assert_eq!(list.values(), vec![8, 9, 10, 11, 12, 20]);
    assert_eq!(list.len(), 6);
}

#[test]
fn delete_twice() {
    let mut list = List::new();
    for v in [8, 9, 10, 20] {
        assert!(list.insert(v));
    }
    assert_eq!(list.delete(9), true);
    assert_eq!(list.delete(9), false);
    assert_eq!(list.values(), vec![8, 10, 20]);
}

#[test]
fn delete_only_value() {
    let mut list = List::new();
    assert!(list.insert(1));
    assert_eq!(list.delete(1), true);
    assert_eq!(list.len(), 0);
    assert!(list.values().is_empty());
    assert_eq!(list.delete(1), false);
}

#[test]
fn insert_then_delete_restores_values() {
    let mut list = List::new();
    for v in [-5, 3, 40] {
        assert!(list.insert(v));
    }
    let before = list.values();
    for v in [-100, 0, 10, 1000] {
        assert_eq!(list.insert(v), true);
        assert_eq!(list.delete(v), true);
        assert_eq!(list.values(), before);
        assert_eq!(list.len(), 3);
    }
}

#[test]
fn delete_absent_changes_nothing() {
    let mut list = List::new();
    for v in [2, 4, 6] {
        assert!(list.insert(v));
    }
    for v in [1, 3, 5, 7, i32::MIN, i32::MAX] {
        assert_eq!(list.delete(v), false);
        assert_eq!(list.values(), vec![2, 4, 6]);
        assert_eq!(list.len(), 3);
    }
}

#[test]
fn extreme_values() {
    let mut list = List::new();
    assert!(list.insert(i32::MAX));
    assert!(list.insert(i32::MIN));
    assert!(list.insert(0));
    assert!(!list.insert(i32::MIN));
    assert_eq!(list.values(), vec![i32::MIN, 0, i32::MAX]);
    assert!(list.delete(i32::MAX));
    assert_eq!(list.values(), vec![i32::MIN, 0]);
}

#[test]
fn count_matches_values_under_mixed_operations() {
    let mut list = List::new();
    let mut x: i64 = 7;
    for _ in 0..2000 {
        x = (x * 1103515245 + 12345) % 2147483648;
        let v = (x % 50) as i32;
        if x % 3 == 0 {
            list.delete(v);
        } else {
            list.insert(v);
        }
        let vals = list.values();
        assert_eq!(vals.len() as u64, list.len());
        assert!(vals.windows(2).all(|w| w[0] < w[1]));
    }
}

#[test]
fn long_set_is_released_without_deep_recursion() {
    let mut list = List::new();
    let n: i32 = 300_000;
    let mut v = n;
    while v > 0 {
        assert!(list.insert(v));
        v -= 1;
    }
    assert_eq!(list.len(), n as u64);
    drop(list);
}
