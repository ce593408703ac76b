use chained_collections::linked_list::LinkedList;

#[test]
fn test_push_pop() {
    let mut list = LinkedList::<i32>::new();

    assert_eq!(list.pop(), None);

    list.push(1);
    list.push(2);
    list.push(3);

    assert_eq!(list.pop(), Some(3));
    assert_eq!(list.pop(), Some(2));

    list.push(4);
    list.push(5);

    assert_eq!(list.pop(), Some(5));
    assert_eq!(list.pop(), Some(4));

    assert_eq!(list.pop(), Some(1));
    assert_eq!(list.pop(), None);
}

#[test]
fn test_peek() {
    let mut list = LinkedList::<i32>::new();

    assert_eq!(list.peek(), None);
    assert_eq!(list.peek_mut(), None);

    list.push(1);

    assert_eq!(list.peek(), Some(&1));
    assert_eq!(list.peek(), Some(&1));
    assert_eq!(list.peek_mut(), Some(&mut 1));
    assert_eq!(list.peek_mut(), Some(&mut 1));
}

#[test]
fn test_peek_mutability() {
    let mut list = LinkedList::<i32>::new();

    list.push(1);

    if let Some(value) = list.peek_mut() {
        *value = 2;
    }
    assert_eq!(list.peek_mut(), Some(&mut 2));

    list.pop();
    assert_eq!(list.peek_mut(), None);
}

#[test]
fn test_iterator() {
    let mut list = LinkedList::<i32>::new();
    list.push(1);
    list.push(2);
    list.push(3);

    let mut iter = list.iter();
    assert_eq!(iter.next(), Some(&3));
    assert_eq!(iter.next(), Some(&2));
    assert_eq!(iter.next(), Some(&1));
    assert_eq!(iter.next(), None);
}

#[test]
fn list_iter_mut_test_iterator() {
    let mut list = LinkedList::<i32>::new();
    list.push(1);
    list.push(2);
    list.push(3);

    let mut iter = list.iter_mut();
    assert_eq!(iter.next(), Some(&mut 3));
    assert_eq!(iter.next(), Some(&mut 2));
    assert_eq!(iter.next(), Some(&mut 1));
    assert_eq!(iter.next(), None);
}
