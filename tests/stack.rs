use linked_lists::first::List;

#[test]
fn first_basics() {
    let mut list = List::new();

    // Check that popping from empty list returns None
    assert_eq!(list.pop(), None);

    // Populate list
    list.push(1);
    list.push(2);
    list.push(3);

    // Check normal removal
    assert_eq!(list.pop(), Some(3));
    assert_eq!(list.pop(), Some(2));

    // Push more items
    list.push(4);
    list.push(5);

    // Check normal removal
    assert_eq!(list.pop(), Some(5));
    assert_eq!(list.pop(), Some(4));

    // Check exhaustion
    assert_eq!(list.pop(), Some(1));
    assert_eq!(list.pop(), None);
}

#[test]
fn cleanup() {
    {
        let mut list = List::new();

        list.push(1);
        list.push(2);
        list.push(3);
        list.push(4);
    }
    println!("list is now out of scope.");
}

#[test]
fn long_stack_is_released_without_deep_recursion() {
    let mut list = List::new();
    let mut i: i32 = 0;
    while i < 1_000_000 {
        list.push(i);
        i += 1;
    }
    assert_eq!(list.pop(), Some(999_999));
    drop(list);
}
