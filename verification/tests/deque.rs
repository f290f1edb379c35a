use dsa_playground::dsa::deque::{Deque, DoublyLinkedList};

#[test]
fn test_deque_basic() {
    let mut deque = Deque::new();
    assert!(deque.empty());

    deque.push_front("1".to_string());
    assert_eq!(deque.len(), 1);
    assert_eq!(deque.peek_front(), Some("1".to_string()));
    assert_eq!(deque.peek_back(), Some("1".to_string()));
}

#[test]
fn test_deque_push_pop() {
    let mut deque = Deque::new();

    deque.push_front("1".to_string());
    deque.push_back("2".to_string());
    deque.push_front("0".to_string());

    assert_eq!(deque.pop_front(), Some("0".to_string()));
    assert_eq!(deque.pop_back(), Some("2".to_string()));
    assert_eq!(deque.pop_front(), Some("1".to_string()));
    assert!(deque.empty());
}

#[test]
fn test_deque_mixed_operations() {
    let mut deque = Deque::new();

    deque.push_back("1".to_string());
    deque.push_front("0".to_string());
    assert_eq!(deque.peek_front(), Some("0".to_string()));
    assert_eq!(deque.peek_back(), Some("1".to_string()));

    assert_eq!(deque.pop_back(), Some("1".to_string()));
    assert_eq!(deque.pop_back(), Some("0".to_string()));
    assert!(deque.empty());
}

#[test]
fn test_deque_from_vec() {
    let vec = vec!["1".to_string(), "2".to_string(), "3".to_string()];
    let deque = Deque::from_vec(vec);

    assert_eq!(deque.len(), 3);
    assert_eq!(deque.peek_front(), Some("1".to_string()));
    assert_eq!(deque.peek_back(), Some("3".to_string()));
}

#[test]
fn test_deque_to_vec() {
    let mut deque = Deque::new();
    deque.push_back("1".to_string());
    deque.push_back("2".to_string());
    deque.push_back("3".to_string());

    let vec = deque.to_vec();
    assert_eq!(vec, vec!["1".to_string(), "2".to_string(), "3".to_string()]);
}

#[test]
fn test_deque_reverse() {
    let mut deque = Deque::new();
    deque.push_back("1".to_string());
    deque.push_back("2".to_string());
    deque.push_back("3".to_string());

    deque.reverse();

    assert_eq!(deque.pop_front(), Some("3".to_string()));
    assert_eq!(deque.pop_front(), Some("2".to_string()));
    assert_eq!(deque.pop_front(), Some("1".to_string()));
    assert!(deque.empty());
}

#[test]
fn deque_mix_reads_front_to_back() {
    let mut deque = Deque::new();
    deque.push_front(1);
    deque.push_back(2);
    deque.push_front(0);
    assert_eq!(deque.to_vec(), vec![0, 1, 2]);
    assert_eq!(deque.pop_front(), Some(0));
    assert_eq!(deque.pop_back(), Some(2));
    assert_eq!(deque.pop_front(), Some(1));
    assert!(deque.empty());
    assert_eq!(deque.len(), 0);
}

#[test]
fn deque_empty_gives_nothing() {
    let mut deque: Deque<i32> = Deque::new();
    assert_eq!(deque.pop_front(), None);
    assert_eq!(deque.pop_back(), None);
    assert_eq!(deque.peek_front(), None);
    assert_eq!(deque.peek_back(), None);
    assert_eq!(deque.to_vec(), Vec::<i32>::new());
    deque.reverse();
    assert!(deque.empty());
    // and it is still usable afterwards
    deque.push_back(9);
    assert_eq!(deque.pop_front(), Some(9));
    assert_eq!(deque.pop_front(), None);
}

#[test]
fn deque_reverse_twice_restores() {
    let mut deque = Deque::from_vec(vec![4, 8, 15, 16, 23, 42]);
    deque.reverse();
    assert_eq!(deque.to_vec(), vec![42, 23, 16, 15, 8, 4]);
    assert_eq!(deque.peek_front(), Some(42));
    assert_eq!(deque.peek_back(), Some(4));
    deque.reverse();
    assert_eq!(deque.to_vec(), vec![4, 8, 15, 16, 23, 42]);
}

#[test]
fn deque_reverse_of_one_and_two() {
    let mut one = Deque::from_vec(vec![7]);
    one.reverse();
    assert_eq!(one.to_vec(), vec![7]);
    let mut two = Deque::from_vec(vec![7, 9]);
    two.reverse();
    assert_eq!(two.to_vec(), vec![9, 7]);
    two.push_front(1);
    two.push_back(2);
    assert_eq!(two.to_vec(), vec![1, 9, 7, 2]);
}

#[test]
fn deque_uses_vacated_slots_again() {
    let mut deque = Deque::new();
    for round in 0..50 {
        for i in 0..20 {
            if i % 2 == 0 {
                deque.push_back(round * 100 + i);
            } else {
                deque.push_front(round * 100 + i);
            }
        }
        assert_eq!(deque.len(), 20);
        let mut seen = Vec::new();
        while let Some(v) = deque.pop_back() {
            seen.push(v);
        }
        let mut expected: Vec<i32> = Vec::new();
        for i in (0..20).rev() {
            if i % 2 == 0 {
                expected.push(round * 100 + i);
            }
        }
        for i in 0..20 {
            if i % 2 == 1 {
                expected.push(round * 100 + i);
            }
        }
        assert_eq!(seen, expected);
        assert!(deque.empty());
    }
}

#[test]
fn deque_after_reverse_both_ends_work() {
    let mut deque = Deque::from_vec(vec![1, 2, 3]);
    deque.reverse();
    deque.push_front(0);
    deque.push_back(4);
    assert_eq!(deque.to_vec(), vec![0, 3, 2, 1, 4]);
    assert_eq!(deque.pop_back(), Some(4));
    assert_eq!(deque.pop_back(), Some(1));
    assert_eq!(deque.pop_front(), Some(0));
    assert_eq!(deque.to_vec(), vec![3, 2]);
}

#[test]
fn doubly_linked_list_by_itself() {
    let mut list = DoublyLinkedList::new();
    assert!(list.is_empty());
    list.push_tail('b');
    list.push_head('a');
    list.push_tail('c');
    assert_eq!(list.len(), 3);
    assert_eq!(list.peek_head(), Some('a'));
    assert_eq!(list.peek_tail(), Some('c'));
    list.reverse();
    assert_eq!(list.pop_head(), Some('c'));
    assert_eq!(list.pop_tail(), Some('a'));
    assert_eq!(list.pop_tail(), Some('b'));
    assert_eq!(list.pop_head(), None);
    assert!(list.is_empty());
}

#[test]
fn deque_is_drawn_between_its_sentinels() {
    let mut deque: Deque<String> = Deque::new();
    assert_eq!(deque.print(), "Header <-> Trailer\n");
    deque.push_back("b".to_string());
    deque.push_front("a".to_string());
    deque.push_back("".to_string());
    deque.push_back("c d".to_string());
    assert_eq!(deque.print(), "Header <-> a <-> b <->  <-> c d <-> Trailer\n");
    deque.reverse();
    assert_eq!(deque.print(), "Header <-> c d <->  <-> b <-> a <-> Trailer\n");
    let mut list: DoublyLinkedList<String> = DoublyLinkedList::new();
    list.push_head("x".to_string());
    assert_eq!(list.print(), "Header <-> x <-> Trailer\n");
}
