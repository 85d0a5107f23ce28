use linked_graph::list::List;

#[test]
fn basics() {
    let mut list: List<i32> = List::new();

    // An empty list has nothing to pop.
    assert_eq!(list.pop(), None);

    list.push(1);
    list.push(2);
    list.push(3);

    assert_eq!(list.pop(), Some(3));
    assert_eq!(list.pop(), Some(2));

    // Pushing after popping continues from what is left.
    list.push(4);
    list.push(5);

    assert_eq!(list.pop(), Some(5));
    assert_eq!(list.pop(), Some(4));

    assert_eq!(list.pop(), Some(1));
    assert_eq!(list.pop(), None);
}

#[test]
fn peek() {
    let mut list = List::new();
    assert_eq!(list.peek(), None);
    assert_eq!(list.peek_mut(), None);
    list.push(1);
    list.push(2);
    list.push(3);

    assert_eq!(list.peek(), Some(&3));
    assert_eq!(list.peek_mut(), Some(&mut 3));

    list.peek_mut().map(|value| *value = 42);
    assert_eq!(list.peek(), Some(&42));
    assert_eq!(list.pop(), Some(42));
}

#[test]
fn into_iter() {
    let mut list = List::new();
    list.push(1);
    list.push(2);
    list.push(3);

    let mut iter = list.into_iter();
    assert_eq!(iter.next(), Some(3));
    assert_eq!(iter.next(), Some(2));
    assert_eq!(iter.next(), Some(1));
    assert_eq!(iter.next(), None);
}

#[test]
fn iter() {
    let mut list = List::new();
    list.push("12345");
    list.push("Hello WORLD");
    list.push("lala");

    let mut iter = list.iter();

    assert_eq!(iter.next(), Some(&"lala"));
    assert_eq!(iter.next(), Some(&"Hello WORLD"));
    assert_eq!(iter.next(), Some(&"12345"));

    assert_eq!(list.peek(), Some(&"lala"));
}

#[test]
fn iter_mut() {
    let mut list = List::new();
    list.push("12345");
    list.push("Hello WORLD");
    list.push("lala");

    let mut iter = list.iter_mut();

    *iter.next().unwrap() = "Hello WORLD";

    assert_eq!(list.peek(), Some(&"Hello WORLD"));
}

#[test]
fn seek() {
    let mut list = List::new();
    list.push("12");
    list.push("123");
    list.push("1234");

    assert_eq!(list.seek("123").peek(), Some(&"123"));
    assert_eq!(list.seek("sdfsdf").peek(), None);
}

#[test]
fn seek_mut() {
    let mut list = List::new();
    list.push("12");
    list.push("123");
    list.push("1234");

    *list.seek_mut("1234").peek_mut().unwrap() = "abc";

    assert!(list.seek_mut("abc").peek_mut().is_some());
}

#[test]
fn pops_reverse_pushes() {
    let mut list = List::new();
    for value in 0..100 {
        list.push(value);
    }
    for value in (0..100).rev() {
        assert_eq!(list.pop(), Some(value));
    }
    assert_eq!(list.pop(), None);
    assert_eq!(list.pop(), None);
    assert_eq!(list.peek(), None);
}

#[test]
fn peek_leaves_the_list_alone() {
    let mut list = List::new();
    list.push(1);
    list.push(2);
    assert_eq!(list.peek(), Some(&2));
    assert_eq!(list.peek(), Some(&2));
    assert_eq!(list.pop(), Some(2));
    assert_eq!(list.pop(), Some(1));
}

#[test]
fn traversal_uses_the_list_up() {
    let mut list = List::new();
    let mut twin = List::new();
    for value in [4, 8, 15, 16, 23, 42] {
        list.push(value);
        twin.push(value);
    }
    let mut iter = list.into_iter();
    while let Some(value) = twin.pop() {
        assert_eq!(iter.next(), Some(value));
    }
    assert_eq!(iter.next(), None);
    assert_eq!(iter.next(), None);
}

#[test]
fn seek_stops_at_the_first_match() {
    let mut list = List::new();
    for value in [1, 2, 3, 4, 5, 6] {
        list.push(value);
    }
    let mut it = list.seek_f(|value| value % 2 == 1);
    assert_eq!(it.peek(), Some(&5));
    assert_eq!(it.next(), Some(&5));
    assert_eq!(it.next(), Some(&4));
    assert_eq!(list.seek_f(|value| *value > 6).peek(), None);
    let mut all = list.iter();
    for value in [6, 5, 4, 3, 2, 1] {
        assert_eq!(all.next(), Some(&value));
    }
    assert_eq!(all.next(), None);
}

#[test]
fn seek_mut_changes_only_what_is_written() {
    let mut list = List::new();
    for value in [1, 2, 3, 4] {
        list.push(value);
    }
    let mut it = list.seek_mut_f(|value| *value < 3);
    assert_eq!(it.peek_mut(), Some(&mut 2));
    *it.next().unwrap() = 20;
    *it.next().unwrap() = 10;
    assert_eq!(it.next(), None);
    assert_eq!(it.peek_mut(), None);
    for value in [4, 3, 20, 10] {
        assert_eq!(list.pop(), Some(value));
    }
    assert_eq!(list.pop(), None);
}

#[test]
fn seek_mut_without_match_is_past_the_tail() {
    let mut list = List::new();
    list.push(1);
    assert!(list.seek_mut_f(|value| *value == 2).peek_mut().is_none());
    assert!(list.seek_mut(2).next().is_none());
    let mut empty: List<i32> = List::new();
    assert!(empty.iter_mut().next().is_none());
    assert!(empty.seek_mut_f(|_| true).peek_mut().is_none());
    assert_eq!(list.pop(), Some(1));
}

#[test]
fn remove_takes_the_first_match_out() {
    let mut list = List::new();
    for value in [1, 2, 3, 4, 5] {
        list.push(value);
    }
    assert_eq!(list.remove_f(|value| value % 2 == 0), Some(4));
    assert_eq!(list.remove_f(|value| *value > 9), None);
    assert_eq!(list.remove_f(|value| *value == 1), Some(1));
    assert_eq!(list.remove_f(|value| *value == 5), Some(5));
    for value in [3, 2] {
        assert_eq!(list.pop(), Some(value));
    }
    assert_eq!(list.pop(), None);
    assert_eq!(list.remove_f(|_| true), None);
}

#[test]
fn long_list_is_released() {
    let mut list = List::new();
    for value in 0..1_000_000 {
        list.push(value);
    }
    assert_eq!(list.peek(), Some(&999_999));
}
