use linked_lists::doubly_list::LinkedList;

#[test]
fn test_push_back() {
    let mut list = LinkedList::new();
    list.push_back(1);
    list.push_back(2);
    list.push_back(3);

    assert_eq!(list.pop_front(), Some(1));
    assert_eq!(list.pop_front(), Some(2));
    assert_eq!(list.pop_front(), Some(3));
    assert_eq!(list.pop_front(), None);
}

#[test]
fn test_mixed_push() {
    let mut list = LinkedList::new();
    list.push_front(2);
    list.push_back(3);
    list.push_front(1);

    assert_eq!(list.pop_front(), Some(1));
    assert_eq!(list.pop_front(), Some(2));
    assert_eq!(list.pop_front(), Some(3));
}

#[test]
fn test_pop_back() {
    let mut list = LinkedList::new();
    list.push_back(1);
    list.push_back(2);
    list.push_back(3);

    assert_eq!(list.pop_back(), Some(3));
    assert_eq!(list.pop_back(), Some(2));
    assert_eq!(list.pop_back(), Some(1));
    assert_eq!(list.pop_back(), None);
}

#[test]
fn test_mixed_pop() {
    let mut list = LinkedList::new();
    list.push_back(1);
    list.push_back(2);
    list.push_back(3);

    assert_eq!(list.pop_front(), Some(1));
    assert_eq!(list.pop_back(), Some(3));
    assert_eq!(list.pop_front(), Some(2));
    assert_eq!(list.pop_back(), None);
}

#[test]
fn test_empty_then_refill() {
    let mut list = LinkedList::new();
    list.push_back(1);
    list.push_back(2);

    assert_eq!(list.pop_front(), Some(1));
    assert_eq!(list.pop_back(), Some(2));
    assert_eq!(list.pop_front(), None);

    list.push_front(3);
    list.push_back(4);
    list.push_front(5);

    assert_eq!(list.pop_front(), Some(5));
    assert_eq!(list.pop_back(), Some(4));
    assert_eq!(list.pop_front(), Some(3));
    assert_eq!(list.pop_back(), None);
}

#[test]
fn test_cursor_peek_mut() {
    let mut list = LinkedList::new();
    list.push_back(1);
    list.push_back(2);
    list.push_back(3);

    let mut cursor = list.cursor_front();
    assert_eq!(cursor.peek_mut(), Some(&mut 1));

    if let Some(val) = cursor.peek_mut() {
        *val = 10;
    }
    assert_eq!(cursor.peek_mut(), Some(&mut 10));
}

#[test]
fn test_cursor_peek_mut_empty() {
    let mut list: LinkedList<i32> = LinkedList::new();
    let mut cursor = list.cursor_front();
    assert_eq!(cursor.peek_mut(), None);
}

#[test]
fn test_cursor_next() {
    let mut list = LinkedList::new();
    list.push_back(1);
    list.push_back(2);
    list.push_back(3);

    let mut cursor = list.cursor_front();
    assert_eq!(cursor.peek_mut(), Some(&mut 1));
    assert_eq!(cursor.next(), Some(&mut 2));
    assert_eq!(cursor.next(), Some(&mut 3));
    assert_eq!(cursor.next(), None);
}

#[test]
fn test_cursor_next_empty() {
    let mut list: LinkedList<i32> = LinkedList::new();
    let mut cursor = list.cursor_front();
    assert_eq!(cursor.next(), None);
}

#[test]
fn test_cursor_next_mutate() {
    let mut list = LinkedList::new();
    list.push_back(1);
    list.push_back(2);
    list.push_back(3);

    let mut cursor = list.cursor_front();
    cursor.next();
    if let Some(val) = cursor.peek_mut() {
        *val = 20;
    }

    drop(cursor);

    assert_eq!(list.pop_front(), Some(1));
    assert_eq!(list.pop_front(), Some(20));
    assert_eq!(list.pop_front(), Some(3));
}

#[test]
fn test_cursor_peek_mut_and_next_combined() {
    let mut list = LinkedList::new();
    list.push_back(10);
    list.push_back(20);
    list.push_back(30);

    let mut cursor = list.cursor_front();

    if let Some(val) = cursor.peek_mut() {
        *val += 5;
    }
    assert_eq!(cursor.peek_mut(), Some(&mut 15));

    if let Some(val) = cursor.next() {
        *val += 5;
    }
    assert_eq!(cursor.peek_mut(), Some(&mut 25));

    if let Some(val) = cursor.next() {
        *val += 5;
    }
    assert_eq!(cursor.peek_mut(), Some(&mut 35));

    assert_eq!(cursor.next(), None);
}

#[test]
fn test_cursor_mutate_then_drain() {
    let mut list = LinkedList::new();
    list.push_back(1);
    list.push_back(2);
    list.push_back(3);

    let mut cursor = list.cursor_front();
    if let Some(val) = cursor.peek_mut() {
        *val = 10;
    }
    drop(cursor);

    assert_eq!(list.pop_front(), Some(10));
    assert_eq!(list.pop_front(), Some(2));
    assert_eq!(list.pop_front(), Some(3));
    assert_eq!(list.pop_front(), None);
}

#[test]
fn test_cursor_stays_off_list() {
    let mut list = LinkedList::new();
    list.push_back(1);
    list.push_back(2);
    list.push_back(3);

    let mut cursor = list.cursor_front();
    assert_eq!(cursor.next(), Some(&mut 2));
    assert_eq!(cursor.next(), Some(&mut 3));
    assert_eq!(cursor.next(), None);
    assert_eq!(cursor.next(), None);
    assert_eq!(cursor.peek_mut(), None);
}

#[test]
fn test_cursor_empty_no_side_effects() {
    let mut list: LinkedList<i32> = LinkedList::new();
    let mut cursor = list.cursor_front();
    assert_eq!(cursor.peek_mut(), None);
    assert_eq!(cursor.next(), None);
    drop(cursor);
    assert_eq!(list.pop_front(), None);
    assert_eq!(list.pop_back(), None);
}

#[test]
fn test_cursor_prev() {
    let mut list = LinkedList::new();
    list.push_back(1);
    list.push_back(2);
    list.push_back(3);

    let mut cursor = list.cursor_front();
    assert_eq!(cursor.next(), Some(&mut 2));
    assert_eq!(cursor.prev(), Some(&mut 1));
    assert_eq!(cursor.prev(), None);
    assert_eq!(cursor.prev(), None);
}

#[test]
fn test_cursor_take_reposition() {
    let mut list = LinkedList::new();
    list.push_back(1);
    list.push_back(2);
    list.push_back(3);

    let mut cursor = list.cursor_front();
    cursor.next();
    assert_eq!(cursor.take(), Some(2));
    assert_eq!(cursor.peek_mut(), Some(&mut 3));
    assert_eq!(cursor.take(), Some(3));
    assert_eq!(cursor.peek_mut(), Some(&mut 1));
    assert_eq!(cursor.take(), Some(1));
    assert_eq!(cursor.peek_mut(), None);
    assert_eq!(cursor.take(), None);
    drop(cursor);
    assert_eq!(list.pop_front(), None);
}

#[test]
fn test_cursor_take_updates_ends() {
    let mut list = LinkedList::new();
    list.push_back(1);
    list.push_back(2);

    let mut cursor = list.cursor_front();
    assert_eq!(cursor.take(), Some(1));
    assert_eq!(cursor.peek_mut(), Some(&mut 2));
    drop(cursor);

    assert_eq!(list.pop_back(), Some(2));
    assert_eq!(list.pop_back(), None);
}

#[test]
fn test_cursor_insert_after_middle() {
    let mut list = LinkedList::new();
    list.push_back(1);
    list.push_back(3);

    let mut cursor = list.cursor_front();
    cursor.insert_after(2);
    assert_eq!(cursor.peek_mut(), Some(&mut 1));
    drop(cursor);

    assert_eq!(list.pop_front(), Some(1));
    assert_eq!(list.pop_front(), Some(2));
    assert_eq!(list.pop_front(), Some(3));
    assert_eq!(list.pop_front(), None);
}

#[test]
fn test_cursor_insert_after_at_tail() {
    let mut list = LinkedList::new();
    list.push_back(1);

    let mut cursor = list.cursor_front();
    cursor.insert_after(2);
    drop(cursor);

    assert_eq!(list.pop_back(), Some(2));
    assert_eq!(list.pop_back(), Some(1));
    assert_eq!(list.pop_back(), None);
}

#[test]
fn test_cursor_insert_into_empty() {
    let mut list: LinkedList<i32> = LinkedList::new();
    let mut cursor = list.cursor_front();
    cursor.insert_after(7);
    assert_eq!(cursor.peek_mut(), Some(&mut 7));
    drop(cursor);
    assert_eq!(list.pop_front(), Some(7));
    assert_eq!(list.pop_front(), None);

    let mut cursor = list.cursor_front();
    cursor.insert_before(8);
    assert_eq!(cursor.peek_mut(), Some(&mut 8));
    drop(cursor);
    assert_eq!(list.pop_front(), Some(8));
    assert_eq!(list.pop_front(), None);
}

#[test]
fn test_cursor_insert_off_list_goes_to_back() {
    let mut list = LinkedList::new();
    list.push_back(1);

    let mut cursor = list.cursor_front();
    assert_eq!(cursor.next(), None);
    cursor.insert_after(2);
    assert_eq!(cursor.peek_mut(), None);
    cursor.insert_before(3);
    assert_eq!(cursor.peek_mut(), None);
    drop(cursor);

    assert_eq!(list.pop_front(), Some(1));
    assert_eq!(list.pop_front(), Some(2));
    assert_eq!(list.pop_front(), Some(3));
    assert_eq!(list.pop_front(), None);
}

#[test]
fn test_cursor_insert_before_front() {
    let mut list = LinkedList::new();
    list.push_back(2);
    list.push_back(3);

    let mut cursor = list.cursor_front();
    cursor.insert_before(1);
    assert_eq!(cursor.peek_mut(), Some(&mut 2));
    assert_eq!(cursor.prev(), Some(&mut 1));
    drop(cursor);

    assert_eq!(list.pop_front(), Some(1));
    assert_eq!(list.pop_front(), Some(2));
    assert_eq!(list.pop_front(), Some(3));
}

#[test]
fn test_link_shape() {
    let mut list: LinkedList<i32> = LinkedList::new();
    assert_eq!(list.link_shape(), Vec::<(bool, bool)>::new());

    list.push_back(1);
    list.push_back(2);
    list.push_back(3);
    assert_eq!(list.link_shape(), vec![(false, true), (true, true), (true, false)]);

    list.pop_front();
    assert_eq!(list.link_shape(), vec![(false, true), (true, false)]);

    list.pop_back();
    assert_eq!(list.link_shape(), vec![(false, false)]);
}
