use linked_lists::list::List;

#[test]
fn test_new() {
    let list: List<i32> = List::new();
    assert_eq!(list.len(), 0);
    assert!(list.peek_front().is_none());
}

#[test]
fn test_push_pop() {
    let mut list = List::new();
    list.push_front(1);
    list.push_front(2);
    list.push_front(3);

    assert_eq!(list.len(), 3);
    assert_eq!(list.pop_front(), Some(3));
    assert_eq!(list.len(), 2);
    assert_eq!(list.pop_front(), Some(2));
    assert_eq!(list.len(), 1);
    assert_eq!(list.pop_front(), Some(1));
    assert_eq!(list.len(), 0);
    assert_eq!(list.pop_front(), None);
}

#[test]
fn test_peek() {
    let mut list = List::new();
    assert!(list.peek_front().is_none());

    list.push_front(1);
    assert_eq!(list.peek_front(), Some(&1));

    list.push_front(2);
    assert_eq!(list.peek_front(), Some(&2));

    list.pop_front();
    assert_eq!(list.peek_front(), Some(&1));

    list.pop_front();
    assert!(list.peek_front().is_none());
}

#[test]
fn test_len() {
    let mut list = List::new();
    assert_eq!(list.len(), 0);

    list.push_front(1);
    assert_eq!(list.len(), 1);

    list.push_front(2);
    assert_eq!(list.len(), 2);

    list.pop_front();
    assert_eq!(list.len(), 1);

    list.pop_front();
    assert_eq!(list.len(), 0);

    list.pop_front(); // Pop from empty list
    assert_eq!(list.len(), 0);
}

#[test]
fn test_peek_front_mut() {
    let mut list = List::new();
    assert!(list.peek_front_mut().is_none());

    list.push_front(1);
    *list.peek_front_mut().unwrap() = 10;
    assert_eq!(list.peek_front(), Some(&10));

    list.push_front(2);
    *list.peek_front_mut().unwrap() = 20;
    assert_eq!(list.peek_front(), Some(&20));

    list.pop_front();
    *list.peek_front_mut().unwrap() = 100;
    assert_eq!(list.peek_front(), Some(&100));
}

#[test]
fn test_clear() {
    let mut list = List::new();
    list.push_front(1);
    list.push_front(2);
    list.push_front(3);
    assert_eq!(list.len(), 3);

    list.clear();
    assert_eq!(list.len(), 0);
    assert!(list.peek_front().is_none());
    assert_eq!(list.pop_front(), None);
}

#[test]
fn test_iter() {
    let mut list = List::new();
    list.push_front(1);
    list.push_front(2);
    list.push_front(3);

    let mut iter = list.iter();
    assert_eq!(iter.next(), Some(&3));
    assert_eq!(iter.next(), Some(&2));
    assert_eq!(iter.next(), Some(&1));
    assert_eq!(iter.next(), None);

    // Test with an empty list
    let empty_list: List<i32> = List::new();
    let mut empty_iter = empty_list.iter();
    assert_eq!(empty_iter.next(), None);

    // Test with a single element
    let mut single_list = List::new();
    single_list.push_front(42);
    let mut single_iter = single_list.iter();
    assert_eq!(single_iter.next(), Some(&42));
    assert_eq!(single_iter.next(), None);
}

#[test]
fn test_iter_mut() {
    let mut list = List::new();
    list.push_front(1);
    list.push_front(2);
    list.push_front(3);

    let mut it = list.iter_mut();
    while let Some(item) = it.next() {
        *item *= 2;
    }

    let mut iter = list.iter();
    assert_eq!(iter.next(), Some(&6));
    assert_eq!(iter.next(), Some(&4));
    assert_eq!(iter.next(), Some(&2));
    assert_eq!(iter.next(), None);

    // Test with an empty list
    let mut empty_list: List<i32> = List::new();
    let mut empty_it = empty_list.iter_mut();
    while let Some(item) = empty_it.next() {
        *item *= 2; // Should not panic or do anything
    }
    assert_eq!(empty_list.len(), 0);

    // Test with a single element
    let mut single_list = List::new();
    single_list.push_front(42);
    let mut single_it = single_list.iter_mut();
    while let Some(item) = single_it.next() {
        *item += 1;
    }
    let mut single_iter = single_list.iter();
    assert_eq!(single_iter.next(), Some(&43));
    assert_eq!(single_iter.next(), None);
}
