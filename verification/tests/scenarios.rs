use std::cmp::Reverse;
use std::collections::BinaryHeap;
use ternary_heap::TernaryHeap;

fn drain<T: Ord>(heap: &mut TernaryHeap<T>) -> Vec<T> {
    let mut out = Vec::new();
    while let Some(item) = heap.pop() {
        out.push(item);
    }
    out
}

fn assert_heap_ordered(data: &[i32]) {
    for parent in 0..data.len() {
        for child in [3 * parent + 1, 3 * parent + 2, 3 * parent + 3] {
            if child < data.len() {
                assert!(data[parent] >= data[child], "{:?}", data);
            }
        }
    }
}

#[test]
fn pushes_then_pops_in_descending_order() {
    let mut heap = TernaryHeap::new();
    for value in [5, 3, 8, 1, 9, 2] {
        heap.push(value);
    }
    assert_eq!(heap.pop(), Some(9));
    assert_eq!(heap.pop(), Some(8));
    assert_eq!(heap.pop(), Some(5));
    assert_eq!(heap.pop(), Some(3));
    assert_eq!(heap.pop(), Some(2));
    assert_eq!(heap.pop(), Some(1));
    assert_eq!(heap.pop(), None);
}

#[test]
fn built_from_a_sequence_pops_the_greatest_first() {
    let input = vec![4, 1, 7, 3, 8, 2, 9, 0];
    let mut heap = TernaryHeap::from(input.clone());
    assert_eq!(heap.len(), 8);
    assert_eq!(heap.pop(), Some(9));
    let mut out = vec![9];
    out.extend(drain(&mut heap));
    assert_eq!(out, vec![9, 8, 7, 4, 3, 2, 1, 0]);
    let mut sorted = input;
    sorted.sort();
    sorted.reverse();
    assert_eq!(out, sorted);
}

#[test]
fn built_from_an_empty_sequence_is_empty() {
    let mut heap: TernaryHeap<u32> = TernaryHeap::from(Vec::new());
    assert!(heap.is_empty());
    assert_eq!(heap.len(), 0);
    assert_eq!(heap.pop(), None);
    assert!(heap.is_empty());
}

#[test]
fn built_from_one_element() {
    let mut heap = TernaryHeap::from(vec![42]);
    assert_eq!(heap.len(), 1);
    assert_eq!(heap.pop(), Some(42));
    assert_eq!(heap.pop(), None);
}

#[test]
fn new_heap_is_empty() {
    let mut heap: TernaryHeap<i64> = TernaryHeap::new();
    assert!(heap.is_empty());
    assert_eq!(heap.len(), 0);
    assert_eq!(heap.pop(), None);
}

#[test]
fn with_capacity_behaves_like_new() {
    let mut heap: TernaryHeap<i64> = TernaryHeap::with_capacity(16);
    assert!(heap.is_empty());
    assert_eq!(heap.len(), 0);
    assert_eq!(heap.pop(), None);
    heap.push(2);
    heap.push(7);
    heap.push(-1);
    assert_eq!(heap.len(), 3);
    assert_eq!(drain(&mut heap), vec![7, 2, -1]);
}

#[test]
fn with_capacity_zero_and_huge_do_not_fail() {
    let mut none: TernaryHeap<u64> = TernaryHeap::with_capacity(0);
    none.push(1);
    assert_eq!(none.pop(), Some(1));
    let mut huge: TernaryHeap<u64> = TernaryHeap::with_capacity(usize::MAX);
    assert!(huge.is_empty());
    huge.push(3);
    huge.push(4);
    assert_eq!(huge.pop(), Some(4));
    assert_eq!(huge.pop(), Some(3));
    assert_eq!(huge.pop(), None);
}

#[test]
fn emptiness_follows_length() {
    let mut heap = TernaryHeap::new();
    assert_eq!(heap.is_empty(), heap.len() == 0);
    heap.push(1);
    assert!(!heap.is_empty());
    assert_eq!(heap.is_empty(), heap.len() == 0);
    heap.pop();
    assert!(heap.is_empty());
    assert_eq!(heap.is_empty(), heap.len() == 0);
}

#[test]
fn popping_an_empty_heap_changes_nothing() {
    let mut heap: TernaryHeap<u8> = TernaryHeap::new();
    for _ in 0..5 {
        assert_eq!(heap.pop(), None);
        assert!(heap.is_empty());
        assert_eq!(heap.len(), 0);
        assert_eq!(Vec::from(heap.clone()), Vec::<u8>::new());
    }
    heap.push(9);
    assert_eq!(heap.pop(), Some(9));
    for _ in 0..3 {
        assert_eq!(heap.pop(), None);
        assert_eq!(heap.len(), 0);
    }
}

#[test]
fn length_counts_pushes_less_pops() {
    let mut heap = TernaryHeap::new();
    let mut pushes = 0;
    let mut pops = 0;
    for round in 0..40 {
        heap.push(round * 7 % 11);
        pushes += 1;
        assert_eq!(heap.len(), pushes - pops);
        if round % 3 == 2 {
            assert!(heap.pop().is_some());
            pops += 1;
            assert_eq!(heap.len(), pushes - pops);
        }
    }
    assert_eq!(pushes, 40);
    assert_eq!(pops, 13);
    assert_eq!(heap.len(), 27);
}

#[test]
fn heap_order_holds_after_every_operation() {
    let mut heap = TernaryHeap::new();
    let values = [12, -4, 7, 7, 30, 0, -9, 15, 3, 21, 8, 8, 1, 19, -2, 5, 40, 11];
    for (round, value) in values.iter().enumerate() {
        heap.push(*value);
        assert_heap_ordered(&Vec::from(heap.clone()));
        if round % 4 == 3 {
            heap.pop();
            assert_heap_ordered(&Vec::from(heap.clone()));
        }
    }
    while heap.pop().is_some() {
        assert_heap_ordered(&Vec::from(heap.clone()));
    }
    let built = TernaryHeap::from(values.to_vec());
    assert_heap_ordered(&Vec::from(built));
}

#[test]
fn draining_gives_every_pushed_element_once_in_descending_order() {
    let values = vec![3, 9, 3, 1, 9, 9, 0, 4, 4, 2, 7];
    let mut heap = TernaryHeap::new();
    for value in &values {
        heap.push(*value);
    }
    let out = drain(&mut heap);
    assert_eq!(out, vec![9, 9, 9, 7, 4, 4, 3, 3, 2, 1, 0]);
    for pair in out.windows(2) {
        assert!(pair[0] >= pair[1]);
    }
    let mut sorted_in = values;
    sorted_in.sort();
    let mut sorted_out = out;
    sorted_out.sort();
    assert_eq!(sorted_in, sorted_out);
}

#[test]
fn interleaved_operations_match_a_binary_heap() {
    let script: [Option<i32>; 24] = [
        Some(5), Some(1), None, Some(8), Some(8), Some(-3), None, None, Some(2), Some(10), None,
        Some(6), Some(0), Some(6), None, None, None, None, None, None, Some(4), None, None, None,
    ];
    let mut reference = BinaryHeap::new();
    let mut heap = TernaryHeap::new();
    for op in script {
        match op {
            Some(value) => {
                reference.push(value);
                heap.push(value);
            }
            None => assert_eq!(reference.pop(), heap.pop()),
        }
        assert_eq!(reference.len(), heap.len());
    }
    assert!(heap.is_empty());
}

#[test]
fn pop_on_known_contents_gives_expected_values() {
    let mut heap = TernaryHeap::new();
    heap.push(5);
    heap.push(1);
    assert_eq!(heap.pop(), Some(5));
    heap.push(8);
    heap.push(-3);
    assert_eq!(heap.pop(), Some(8));
    assert_eq!(heap.pop(), Some(1));
    assert_eq!(heap.pop(), Some(-3));
    assert_eq!(heap.pop(), None);
}

#[test]
fn bulk_construction_drains_like_single_pushes() {
    let values = vec![14, 2, 2, 31, 8, 0, 27, 14, 5, 19, 1, 31, 6];
    let mut bulk = TernaryHeap::from(values.clone());
    let mut single = TernaryHeap::new();
    for value in &values {
        single.push(*value);
    }
    assert_eq!(bulk.len(), single.len());
    let from_bulk = drain(&mut bulk);
    let from_single = drain(&mut single);
    assert_eq!(from_bulk, from_single);
    assert_eq!(from_bulk, vec![31, 31, 27, 19, 14, 14, 8, 6, 5, 2, 2, 1, 0]);
}

#[test]
fn parent_positions() {
    assert_eq!(TernaryHeap::<u8>::parent(0), 0);
    assert_eq!(TernaryHeap::<u8>::parent(1), 0);
    assert_eq!(TernaryHeap::<u8>::parent(2), 0);
    assert_eq!(TernaryHeap::<u8>::parent(3), 0);
    assert_eq!(TernaryHeap::<u8>::parent(4), 1);
    assert_eq!(TernaryHeap::<u8>::parent(6), 1);
    assert_eq!(TernaryHeap::<u8>::parent(7), 2);
    assert_eq!(TernaryHeap::<u8>::parent(12), 3);
    assert_eq!(TernaryHeap::<u8>::parent(13), 4);
    assert_eq!(TernaryHeap::<u8>::parent(usize::MAX), (usize::MAX - 1) / 3);
}

#[test]
fn child_positions() {
    assert_eq!(TernaryHeap::<u8>::children(0, 10), Some(vec![1, 2, 3]));
    assert_eq!(TernaryHeap::<u8>::children(1, 10), Some(vec![4, 5, 6]));
    assert_eq!(TernaryHeap::<u8>::children(2, 10), Some(vec![7, 8, 9]));
    assert_eq!(TernaryHeap::<u8>::children(3, 10), None);
    assert_eq!(TernaryHeap::<u8>::children(3, 11), Some(vec![10]));
    assert_eq!(TernaryHeap::<u8>::children(1, 6), Some(vec![4, 5]));
    assert_eq!(TernaryHeap::<u8>::children(1, 5), Some(vec![4]));
    assert_eq!(TernaryHeap::<u8>::children(1, 4), None);
    assert_eq!(TernaryHeap::<u8>::children(0, 0), None);
    assert_eq!(TernaryHeap::<u8>::children(0, 1), None);
    assert_eq!(TernaryHeap::<u8>::children(0, 2), Some(vec![1]));
    assert_eq!(TernaryHeap::<u8>::children(5, 3), None);
}

#[test]
fn child_positions_near_the_largest_position() {
    assert_eq!(TernaryHeap::<u8>::children(usize::MAX, usize::MAX), None);
    assert_eq!(TernaryHeap::<u8>::children(usize::MAX / 3, usize::MAX), None);
    let parent = usize::MAX / 3 - 1;
    assert_eq!(
        TernaryHeap::<u8>::children(parent, usize::MAX),
        Some(vec![usize::MAX - 2, usize::MAX - 1])
    );
    assert_eq!(
        TernaryHeap::<u8>::children(parent, usize::MAX - 1),
        Some(vec![usize::MAX - 2])
    );
    assert_eq!(TernaryHeap::<u8>::children(parent, usize::MAX - 2), None);
    let parent = usize::MAX / 3 - 2;
    assert_eq!(
        TernaryHeap::<u8>::children(parent, usize::MAX),
        Some(vec![usize::MAX - 5, usize::MAX - 4, usize::MAX - 3])
    );
}

#[test]
fn children_and_parent_are_inverse() {
    for parent in 0..50usize {
        let children = TernaryHeap::<u8>::children(parent, 200).unwrap();
        assert_eq!(children.len(), 3);
        for child in children {
            assert_eq!(TernaryHeap::<u8>::parent(child), parent);
        }
    }
}

#[test]
fn pushed_element_swims_to_its_place() {
    let mut heap = TernaryHeap::new();
    heap.push(5);
    assert_eq!(Vec::from(heap.clone()), vec![5]);
    heap.push(3);
    assert_eq!(Vec::from(heap.clone()), vec![5, 3]);
    heap.push(8);
    assert_eq!(Vec::from(heap.clone()), vec![8, 3, 5]);
    heap.push(1);
    assert_eq!(Vec::from(heap.clone()), vec![8, 3, 5, 1]);
    heap.push(9);
    assert_eq!(Vec::from(heap.clone()), vec![9, 8, 5, 1, 3]);
    heap.push(2);
    assert_eq!(Vec::from(heap.clone()), vec![9, 8, 5, 1, 3, 2]);
}

#[test]
fn last_element_sinks_from_the_root_on_pop() {
    let mut heap = TernaryHeap::new();
    for value in [5, 3, 8, 1, 9, 2] {
        heap.push(value);
    }
    assert_eq!(heap.pop(), Some(9));
    assert_eq!(Vec::from(heap.clone()), vec![8, 3, 5, 1, 2]);
    assert_eq!(heap.pop(), Some(8));
    assert_eq!(Vec::from(heap.clone()), vec![5, 3, 2, 1]);
    assert_eq!(heap.pop(), Some(5));
    assert_eq!(Vec::from(heap.clone()), vec![3, 1, 2]);
}

#[test]
fn bulk_construction_sinks_bottom_up() {
    assert_eq!(Vec::from(TernaryHeap::from(vec![3, 1, 2])), vec![3, 1, 2]);
    assert_eq!(Vec::from(TernaryHeap::from(vec![1, 2, 3])), vec![3, 2, 1]);
    assert_eq!(
        Vec::from(TernaryHeap::from(vec![4, 1, 7, 3, 8, 2, 9, 0])),
        vec![9, 8, 7, 3, 4, 2, 1, 0]
    );
}

#[test]
fn conversion_to_a_vector_keeps_heap_order_not_sorted_order() {
    let heap = TernaryHeap::from(vec![1, 2, 3, 4, 5]);
    let data = Vec::from(heap);
    assert_eq!(data.len(), 5);
    assert_eq!(data[0], 5);
    assert_heap_ordered(&data);
    let mut sorted = data.clone();
    sorted.sort();
    assert_eq!(sorted, vec![1, 2, 3, 4, 5]);
    assert_ne!(data, vec![5, 4, 3, 2, 1]);
}

#[test]
fn equal_elements_all_come_out() {
    let mut heap = TernaryHeap::from(vec![2, 2, 2, 2, 2, 2, 2]);
    heap.push(2);
    assert_eq!(drain(&mut heap), vec![2; 8]);
}

#[test]
fn pairs_with_equal_keys_come_out_by_key() {
    let mut heap = TernaryHeap::new();
    for (key, tag) in [(1, 'a'), (3, 'b'), (3, 'c'), (2, 'd'), (3, 'e'), (1, 'f')] {
        heap.push((key, tag));
    }
    let out = drain(&mut heap);
    let keys: Vec<i32> = out.iter().map(|pair| pair.0).collect();
    assert_eq!(keys, vec![3, 3, 3, 2, 1, 1]);
    assert_eq!(out, vec![(3, 'e'), (3, 'c'), (3, 'b'), (2, 'd'), (1, 'f'), (1, 'a')]);
}

#[test]
fn strings_are_ordered_as_strings() {
    let mut heap = TernaryHeap::new();
    for word in ["pear", "apple", "quince", "fig", "banana"] {
        heap.push(word.to_string());
    }
    assert_eq!(
        drain(&mut heap),
        vec!["quince", "pear", "fig", "banana", "apple"]
    );
}

#[test]
fn reversed_order_gives_a_min_heap() {
    let mut heap = TernaryHeap::new();
    for value in [5, 3, 8, 1, 9, 2] {
        heap.push(Reverse(value));
    }
    let out: Vec<i32> = drain(&mut heap).into_iter().map(|item| item.0).collect();
    assert_eq!(out, vec![1, 2, 3, 5, 8, 9]);
}

#[test]
fn ascending_and_descending_inputs() {
    let mut up = TernaryHeap::new();
    let mut down = TernaryHeap::new();
    for value in 0..100u32 {
        up.push(value);
        down.push(99 - value);
    }
    let expected: Vec<u32> = (0..100).rev().collect();
    assert_eq!(drain(&mut up), expected);
    assert_eq!(drain(&mut down), expected);
    let mut bulk = TernaryHeap::from((0..100u32).collect::<Vec<_>>());
    assert_eq!(drain(&mut bulk), expected);
}

#[test]
fn a_clone_is_a_heap_of_its_own() {
    let mut heap = TernaryHeap::from(vec![6, 2, 9, 4]);
    let mut copy = heap.clone();
    assert_eq!(Vec::from(heap.clone()), Vec::from(copy.clone()));
    heap.push(11);
    assert_eq!(heap.len(), 5);
    assert_eq!(copy.len(), 4);
    assert_eq!(copy.pop(), Some(9));
    assert_eq!(heap.pop(), Some(11));
    assert_eq!(heap.pop(), Some(9));
    assert_eq!(drain(&mut copy), vec![6, 4, 2]);
    assert_eq!(drain(&mut heap), vec![6, 4, 2]);
}

#[test]
fn conversion_through_into() {
    let heap: TernaryHeap<u16> = vec![10, 30, 20].into();
    assert_eq!(heap.len(), 3);
    let data: Vec<u16> = heap.into();
    assert_eq!(data, vec![30, 10, 20]);
}
