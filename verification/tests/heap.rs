use dsa_playground::dsa::heap::{Heap, HeapType};
use std::cmp::Ordering;

/// A value that is ordered by its key alone; the tag tells equal ones apart.
#[derive(Clone, Debug)]
struct Keyed {
    key: i32,
    tag: char,
}

impl PartialEq for Keyed {
    fn eq(&self, other: &Self) -> bool {
        self.key == other.key
    }
}

impl Eq for Keyed {}

impl PartialOrd for Keyed {
    fn partial_cmp(&self, other: &Self) -> Option<Ordering> {
        Some(self.cmp(other))
    }
}

impl Ord for Keyed {
    fn cmp(&self, other: &Self) -> Ordering {
        self.key.cmp(&other.key)
    }
}

fn tags(heap: &Heap<Keyed>) -> String {
    heap.to_vec().iter().map(|k| k.tag).collect()
}

#[test]
fn test_new_max_heap() {
    let heap: Heap<i32> = Heap::new(HeapType::MaxHeap);
    assert!(heap.is_empty());
    assert_eq!(heap.len(), 0);
}

#[test]
fn test_push_pop_max_heap() {
    let mut heap = Heap::new(HeapType::MaxHeap);
    heap.push(5);
    heap.push(3);
    heap.push(7);
    heap.push(1);

    assert_eq!(heap.len(), 4);
    assert_eq!(heap.peek(), Some(&7));
    assert_eq!(heap.pop(), Some(7));
    assert_eq!(heap.pop(), Some(5));
    assert_eq!(heap.pop(), Some(3));
    assert_eq!(heap.pop(), Some(1));
    assert_eq!(heap.pop(), None);
}

#[test]
fn test_from_vec_max_heap() {
    let vec = vec![1, 5, 3, 7, 2];
    let heap = Heap::from_vec(vec, HeapType::MaxHeap);
    assert_eq!(heap.peek(), Some(&7));

    let sorted = {
        let mut h = heap;
        let mut v = Vec::new();
        while let Some(x) = h.pop() {
            v.push(x);
        }
        v
    };
    assert_eq!(sorted, vec![7, 5, 3, 2, 1]);
}

#[test]
fn test_replace_max_heap() {
    let mut heap = Heap::from_vec(vec![5, 3, 7, 1], HeapType::MaxHeap);
    assert_eq!(heap.replace(4), Some(7));
    assert_eq!(heap.peek(), Some(&5));
}

#[test]
fn test_merge_max_heap() {
    let mut heap1 = Heap::from_vec(vec![5, 3, 1], HeapType::MaxHeap);
    let mut heap2 = Heap::from_vec(vec![6, 4, 2], HeapType::MaxHeap);
    heap1.merge(&mut heap2);

    assert_eq!(heap1.len(), 6);
    assert_eq!(heap2.len(), 0);
    assert_eq!(heap1.peek(), Some(&6));
}

#[test]
fn test_new_min_heap() {
    let heap: Heap<i32> = Heap::new(HeapType::MinHeap);
    assert!(heap.is_empty());
    assert_eq!(heap.len(), 0);
}

#[test]
fn test_push_pop_min_heap() {
    let mut heap = Heap::new(HeapType::MinHeap);
    heap.push(5);
    heap.push(3);
    heap.push(7);
    heap.push(1);

    assert_eq!(heap.len(), 4);
    assert_eq!(heap.peek(), Some(&1));
    assert_eq!(heap.pop(), Some(1));
    assert_eq!(heap.pop(), Some(3));
    assert_eq!(heap.pop(), Some(5));
    assert_eq!(heap.pop(), Some(7));
    assert_eq!(heap.pop(), None);
}

#[test]
fn test_from_vec_min_heap() {
    let vec = vec![5, 3, 7, 1, 2];
    let heap = Heap::from_vec(vec, HeapType::MinHeap);
    assert_eq!(heap.peek(), Some(&1));

    let sorted = {
        let mut h = heap;
        let mut v = Vec::new();
        while let Some(x) = h.pop() {
            v.push(x);
        }
        v
    };
    assert_eq!(sorted, vec![1, 2, 3, 5, 7]);
}

#[test]
fn test_replace_min_heap() {
    let mut heap = Heap::from_vec(vec![5, 3, 7, 1], HeapType::MinHeap);
    assert_eq!(heap.replace(4), Some(1));
    assert_eq!(heap.peek(), Some(&3));
}

#[test]
fn test_merge_min_heap() {
    let mut heap1 = Heap::from_vec(vec![5, 3, 1], HeapType::MinHeap);
    let mut heap2 = Heap::from_vec(vec![6, 4, 2], HeapType::MinHeap);
    heap1.merge(&mut heap2);

    assert_eq!(heap1.len(), 6);
    assert_eq!(heap2.len(), 0);
    assert_eq!(heap1.peek(), Some(&1));
}

#[test]
fn test_string_max_heap() {
    let mut heap = Heap::new(HeapType::MaxHeap);
    heap.push("apple".to_string());
    heap.push("zebra".to_string());
    heap.push("banana".to_string());

    assert_eq!(heap.pop(), Some("zebra".to_string()));
    assert_eq!(heap.pop(), Some("banana".to_string()));
    assert_eq!(heap.pop(), Some("apple".to_string()));
}

#[test]
fn test_string_min_heap() {
    let mut heap = Heap::new(HeapType::MinHeap);
    heap.push("apple".to_string());
    heap.push("zebra".to_string());
    heap.push("banana".to_string());

    assert_eq!(heap.pop(), Some("apple".to_string()));
    assert_eq!(heap.pop(), Some("banana".to_string()));
    assert_eq!(heap.pop(), Some("zebra".to_string()));
}

#[test]
fn test_empty_operations() {
    let mut max_heap: Heap<i32> = Heap::new(HeapType::MaxHeap);
    let mut min_heap: Heap<i32> = Heap::new(HeapType::MinHeap);

    assert_eq!(max_heap.pop(), None);
    assert_eq!(min_heap.pop(), None);
    assert_eq!(max_heap.peek(), None);
    assert_eq!(min_heap.peek(), None);
    assert_eq!(max_heap.replace(1), None);
    assert_eq!(min_heap.replace(1), None);
}

fn drain(mut heap: Heap<i64>) -> Vec<i64> {
    let mut out = Vec::new();
    while let Some(x) = heap.pop() {
        out.push(x);
    }
    out
}

fn scrambled(n: i64) -> Vec<i64> {
    let mut v = Vec::new();
    let mut x: i64 = 12345;
    for _ in 0..n {
        x = (x * 1103515245 + 12345) % 2147483648;
        v.push(x % 1000 - 500);
    }
    v
}

#[test]
fn heap_drains_sorted_both_ways() {
    let input = scrambled(500);
    let mut ascending = input.clone();
    ascending.sort();
    let mut descending = ascending.clone();
    descending.reverse();
    assert_eq!(drain(Heap::from_vec(input.clone(), HeapType::MinHeap)), ascending);
    assert_eq!(drain(Heap::from_vec(input, HeapType::MaxHeap)), descending);
}

#[test]
fn heap_pushes_then_pops_in_order() {
    let input = scrambled(300);
    let mut heap = Heap::new(HeapType::MinHeap);
    for x in input.iter() {
        heap.push(*x);
    }
    assert_eq!(heap.len(), 300);
    let out = drain(heap);
    for i in 1..out.len() {
        assert!(out[i - 1] <= out[i]);
    }
    let mut expected = input;
    expected.sort();
    assert_eq!(out, expected);
}

#[test]
fn heap_keeps_equal_elements() {
    let heap = Heap::from_vec(vec![2, 2, 1, 2, 1, 1], HeapType::MaxHeap);
    assert_eq!(drain(heap), vec![2, 2, 2, 1, 1, 1]);
}

#[test]
fn heap_array_is_heap_ordered() {
    let heap = Heap::from_vec(scrambled(200), HeapType::MaxHeap);
    let array = heap.to_vec();
    assert_eq!(array.len(), 200);
    for i in 1..array.len() {
        assert!(array[(i - 1) / 2] >= array[i]);
    }
    let heap = Heap::from_vec(scrambled(200), HeapType::MinHeap);
    let array = heap.to_vec();
    for i in 1..array.len() {
        assert!(array[(i - 1) / 2] <= array[i]);
    }
}

#[test]
fn heap_from_vec_exact_layout() {
    // bottom-up: 7 rises over 5, then 7 rises over 1 and 1 sinks below 5
    let heap = Heap::from_vec(vec![1, 5, 3, 7, 2], HeapType::MaxHeap);
    assert_eq!(heap.to_vec(), vec![7, 5, 3, 1, 2]);
}

#[test]
fn heap_replace_on_empty_inserts() {
    let mut heap: Heap<i64> = Heap::new(HeapType::MinHeap);
    assert_eq!(heap.replace(3), None);
    assert_eq!(heap.len(), 1);
    assert_eq!(heap.peek(), Some(&3));
    assert_eq!(heap.replace(8), Some(3));
    assert_eq!(heap.to_vec(), vec![8]);
}

#[test]
fn heap_replace_keeps_size_and_order() {
    let mut heap = Heap::from_vec(vec![9, 4, 7, 1, 3], HeapType::MaxHeap);
    assert_eq!(heap.replace(0), Some(9));
    assert_eq!(heap.len(), 5);
    assert_eq!(drain(heap), vec![7, 4, 3, 1, 0]);
}

#[test]
fn heap_merge_holds_everything() {
    let mut a = Heap::from_vec(vec![5, 3, 1, 9], HeapType::MinHeap);
    let mut b = Heap::from_vec(vec![6, 4, 2, 1], HeapType::MinHeap);
    a.merge(&mut b);
    assert!(b.is_empty());
    assert_eq!(drain(a), vec![1, 1, 2, 3, 4, 5, 6, 9]);
    // the emptied heap is still a heap
    b.push(10);
    b.push(-1);
    assert_eq!(drain(b), vec![-1, 10]);
}

#[test]
fn heap_merge_with_empty() {
    let mut a: Heap<i64> = Heap::new(HeapType::MaxHeap);
    let mut b = Heap::from_vec(vec![1, 2, 3], HeapType::MaxHeap);
    a.merge(&mut b);
    assert_eq!(a.len(), 3);
    let mut c: Heap<i64> = Heap::new(HeapType::MaxHeap);
    a.merge(&mut c);
    assert_eq!(drain(a), vec![3, 2, 1]);
}

#[test]
fn heap_compare_follows_mode() {
    let min: Heap<i64> = Heap::new(HeapType::MinHeap);
    let max: Heap<i64> = Heap::new(HeapType::MaxHeap);
    assert!(min.compare(&1, &2));
    assert!(!min.compare(&2, &1));
    assert!(!min.compare(&2, &2));
    assert!(max.compare(&2, &1));
    assert!(!max.compare(&1, &2));
    assert!(!max.compare(&2, &2));
}

#[test]
fn heap_sifting_a_settled_heap_changes_nothing() {
    let mut heap = Heap::from_vec(vec![1, 5, 3, 7, 2], HeapType::MaxHeap);
    let before = heap.to_vec();
    heap.heapify_down(0);
    heap.heapify_down(1);
    heap.heapify_down(100);
    heap.heapify_up(4);
    heap.heapify_up(0);
    assert_eq!(heap.to_vec(), before);
}

#[test]
fn heap_of_one_and_two() {
    let heap = Heap::from_vec(vec![4], HeapType::MinHeap);
    assert_eq!(drain(heap), vec![4]);
    let heap = Heap::from_vec(vec![4, 2], HeapType::MinHeap);
    assert_eq!(drain(heap), vec![2, 4]);
    let heap = Heap::from_vec(Vec::new(), HeapType::MinHeap);
    assert_eq!(drain(heap), Vec::<i64>::new());
}

#[test]
fn heap_levels_start_at_the_left_edge() {
    let starts = |n: i64| Heap::from_vec((0..n).collect(), HeapType::MinHeap).level_starts();
    assert_eq!(starts(0), Vec::<usize>::new());
    assert_eq!(starts(1), vec![0]);
    assert_eq!(starts(2), vec![0, 1]);
    assert_eq!(starts(3), vec![0, 1]);
    assert_eq!(starts(4), vec![0, 1, 3]);
    assert_eq!(starts(7), vec![0, 1, 3]);
    assert_eq!(starts(8), vec![0, 1, 3, 7]);
    assert_eq!(starts(1000).len(), 10);
}

#[test]
fn heap_push_moves_only_what_it_must() {
    let mut heap = Heap::new(HeapType::MaxHeap);
    for x in [1, 5, 3, 7, 2] {
        heap.push(x);
    }
    assert_eq!(heap.to_vec(), vec![7, 5, 3, 1, 2]);
    // 6 rises past 3 and stops below 7; the left half stays as it is
    heap.push(6);
    assert_eq!(heap.to_vec(), vec![7, 5, 6, 1, 2, 3]);
    // 7 does not dominate the 7 at the root
    heap.push(7);
    assert_eq!(heap.to_vec(), vec![7, 5, 7, 1, 2, 3, 6]);
}

#[test]
fn heap_root_stays_among_equals() {
    for mode in [HeapType::MinHeap, HeapType::MaxHeap] {
        let mut heap = Heap::new(mode);
        heap.push(Keyed { key: 4, tag: 'a' });
        heap.push(Keyed { key: 4, tag: 'b' });
        heap.push(Keyed { key: 4, tag: 'c' });
        heap.push(Keyed { key: 4, tag: 'd' });
        // nothing dominates an equal: every value stays where it was put
        assert_eq!(tags(&heap), "abcd");
        assert_eq!(heap.peek().map(|k| k.tag), Some('a'));
    }
    let mut heap = Heap::new(HeapType::MinHeap);
    heap.push(Keyed { key: 4, tag: 'a' });
    heap.push(Keyed { key: 3, tag: 'b' });
    assert_eq!(heap.peek().map(|k| k.tag), Some('b'));
    heap.push(Keyed { key: 3, tag: 'c' });
    assert_eq!(tags(&heap), "bac");
}

#[test]
fn heap_pop_sinks_the_last_element_from_the_root() {
    let mut heap = Heap::from_vec(vec![7, 5, 6, 1, 2, 3], HeapType::MaxHeap);
    assert_eq!(heap.to_vec(), vec![7, 5, 6, 1, 2, 3]);
    // 3 goes to the root and sinks under 6, the more dominant child
    assert_eq!(heap.pop(), Some(7));
    assert_eq!(heap.to_vec(), vec![6, 5, 3, 1, 2]);
    // of two children that compare as equal the left one rises
    let mut twins = Heap::from_vec(
        vec![
            Keyed { key: 9, tag: 'r' },
            Keyed { key: 5, tag: 'x' },
            Keyed { key: 5, tag: 'y' },
            Keyed { key: 1, tag: 'z' },
        ],
        HeapType::MaxHeap,
    );
    assert_eq!(twins.pop().map(|k| k.tag), Some('r'));
    assert_eq!(tags(&twins), "xzy");
    assert_eq!(twins.replace(Keyed { key: 5, tag: 'n' }).map(|k| k.tag), Some('x'));
    assert_eq!(tags(&twins), "nzy");
}
