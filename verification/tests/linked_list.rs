use dsa_playground::dsa::linked_list::LinkedList;

#[test]
fn linked_list_test_linked_list() {
    let mut list = LinkedList::new();
    list.push_front(1);
    list.push_front(2);
    list.push_front(3);
    assert_eq!(list.pop_front(), Some(3));
    assert_eq!(list.pop_front(), Some(2));
    assert_eq!(list.pop_front(), Some(1));
    assert_eq!(list.pop_front(), None);
}

#[test]
fn linked_list_test_linked_list_reverse() {
    let mut list = LinkedList::new();
    list.push_front(1);
    list.push_front(2);
    list.push_front(3);
    list.reverse();
    assert_eq!(list.pop_front(), Some(1));
    assert_eq!(list.pop_front(), Some(2));
    assert_eq!(list.pop_front(), Some(3));
    assert_eq!(list.pop_front(), None);
}

#[test]
fn test_linked_list_from_vec() {
    let list = LinkedList::from_vec(vec![1, 2, 3]);
    assert_eq!(list.to_vec(), vec![1, 2, 3]);
}

#[test]
fn linked_list_empty_gives_nothing() {
    let mut list = LinkedList::new();
    assert_eq!(list.pop_front(), None);
    assert_eq!(list.to_vec(), Vec::<i32>::new());
    list.reverse();
    assert_eq!(list.to_vec(), Vec::<i32>::new());
    let list = LinkedList::from_vec(Vec::new());
    assert_eq!(list.to_vec(), Vec::<i32>::new());
}

#[test]
fn linked_list_reverse_twice_restores() {
    let mut list = LinkedList::from_vec(vec![3, 1, 4, 1, 5, 9, 2, 6]);
    list.reverse();
    assert_eq!(list.to_vec(), vec![6, 2, 9, 5, 1, 4, 1, 3]);
    list.reverse();
    assert_eq!(list.to_vec(), vec![3, 1, 4, 1, 5, 9, 2, 6]);
}

#[test]
fn linked_list_head_is_first_of_vec() {
    let mut list = LinkedList::from_vec(vec![10, 20, 30]);
    assert_eq!(list.pop_front(), Some(10));
    list.push_front(5);
    assert_eq!(list.to_vec(), vec![5, 20, 30]);
}

#[test]
fn linked_list_long_chain_is_released() {
    let mut list = LinkedList::new();
    for i in 0..300_000 {
        list.push_front(i);
    }
    list.reverse();
    assert_eq!(list.pop_front(), Some(0));
    // going out of scope releases the other nodes one by one
}
