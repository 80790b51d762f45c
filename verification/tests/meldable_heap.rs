use heaps::entry::HeapEntry;
use heaps::heap::Heap;
use heaps::meldable::{Node, RandomizedMeldableHeap};

fn single(key: u32, data: char) -> RandomizedMeldableHeap<u32, char> {
    RandomizedMeldableHeap {
        root: Some(Box::new(Node {
            value: HeapEntry { key, data },
            left: RandomizedMeldableHeap { root: None },
            right: RandomizedMeldableHeap { root: None },
        })),
    }
}

fn check_order(heap: &RandomizedMeldableHeap<u32, char>) -> usize {
    match &heap.root {
        None => 0,
        Some(node) => {
            for child in [&node.left, &node.right] {
                if let Some(below) = &child.root {
                    assert!(node.value.key <= below.value.key);
                }
            }
            1 + check_order(&node.left) + check_order(&node.right)
        }
    }
}

#[test]
fn meld_below_descends_where_the_coin_says() {
    let mut right = *single(1, 'a').root.unwrap();
    right.meld_below(single(5, 'b'), true);
    assert!(right.left.root.is_none());
    assert_eq!(right.right.root.as_ref().unwrap().value.key, 5);
    assert_eq!(right.value.key, 1);

    let mut left = *single(1, 'a').root.unwrap();
    left.meld_below(single(5, 'b'), false);
    assert!(left.right.root.is_none());
    assert_eq!(left.left.root.as_ref().unwrap().value.key, 5);
}

#[test]
fn meld_below_leaves_the_other_child_alone() {
    let mut node = *single(1, 'a').root.unwrap();
    node.meld_below(single(7, 'l'), false);
    node.meld_below(single(4, 'r'), true);
    node.meld_below(single(9, 's'), true);
    let left = node.left.root.as_ref().unwrap();
    assert_eq!((left.value.key, left.value.data), (7, 'l'));
    assert!(left.left.root.is_none() && left.right.root.is_none());
    assert_eq!(node.right.root.as_ref().unwrap().value.key, 4);
    assert_eq!(check_order(&node.right), 2);
}

#[test]
fn meld_puts_the_smaller_root_on_top() {
    let mut heap = single(5, 'a');
    heap.meld(single(3, 'b'));
    let root = heap.root.as_ref().unwrap();
    assert_eq!(root.value.key, 3);
    let below = if root.left.root.is_some() { &root.left } else { &root.right };
    assert_eq!(below.root.as_ref().unwrap().value.key, 5);
    assert_eq!(check_order(&heap), 2);
}

#[test]
fn meld_of_equal_roots_keeps_the_receiver_on_top() {
    let mut heap = single(2, 'a');
    heap.meld(single(2, 'b'));
    assert_eq!(heap.root.as_ref().unwrap().value.data, 'a');
}

#[test]
fn meld_with_an_empty_heap_is_the_other_heap() {
    let mut heap = single(4, 'a');
    heap.meld(RandomizedMeldableHeap::new());
    assert_eq!(heap.root.as_ref().unwrap().value.key, 4);
    assert_eq!(check_order(&heap), 1);

    let mut empty: RandomizedMeldableHeap<u32, char> = RandomizedMeldableHeap::new();
    empty.meld(single(6, 'b'));
    assert_eq!(empty.root.as_ref().unwrap().value.key, 6);

    let mut both: RandomizedMeldableHeap<u32, char> = RandomizedMeldableHeap::new();
    both.meld(RandomizedMeldableHeap::new());
    assert!(both.root.is_none());
}

#[test]
fn meld_keeps_every_entry_and_the_order() {
    let mut left = RandomizedMeldableHeap::new();
    let mut right = RandomizedMeldableHeap::new();
    for key in 0..40u32 {
        left.insert(HeapEntry { key: (key * 17) % 41, data: ' ' });
        right.insert(HeapEntry { key: (key * 23) % 43, data: ' ' });
    }
    left.meld(right);
    assert_eq!(check_order(&left), 80);
    let mut previous = 0;
    for _ in 0..80 {
        let key = left.delete_min().unwrap().key;
        assert!(previous <= key);
        previous = key;
    }
    assert!(left.delete_min().is_none());
}

#[test]
fn coin_takes_both_sides() {
    let mut went_left = false;
    let mut went_right = false;
    for _ in 0..200 {
        let mut heap = single(1, 'a');
        heap.meld(single(2, 'b'));
        let root = heap.root.as_ref().unwrap();
        assert!(root.left.root.is_some() != root.right.root.is_some());
        went_left |= root.left.root.is_some();
        went_right |= root.right.root.is_some();
    }
    assert!(went_left && went_right);
}

#[test]
fn delete_min_returns_the_root_and_melds_what_is_below() {
    let mut heap = single(1, 'a');
    heap.root.as_mut().unwrap().left = single(4, 'b');
    heap.root.as_mut().unwrap().right = single(3, 'c');
    assert_eq!(heap.delete_min().map(|e| e.data), Some('a'));
    let root = heap.root.as_ref().unwrap();
    assert_eq!(root.value.key, 3);
    assert_eq!(check_order(&heap), 2);
}

#[test]
fn insert_into_an_empty_heap_makes_a_single_node() {
    let mut heap = RandomizedMeldableHeap::new();
    heap.insert(HeapEntry { key: 3u32, data: 'x' });
    let root = heap.root.as_ref().unwrap();
    assert_eq!((root.value.key, root.value.data), (3, 'x'));
    assert!(root.left.root.is_none() && root.right.root.is_none());
}

#[test]
fn insert_of_a_smaller_key_puts_the_old_heap_below() {
    let mut heap = single(5, 'a');
    heap.insert(HeapEntry { key: 2, data: 'b' });
    let root = heap.root.as_ref().unwrap();
    assert_eq!(root.value.data, 'b');
    let below = if root.left.root.is_some() { &root.left } else { &root.right };
    assert_eq!(below.root.as_ref().unwrap().value.data, 'a');
    assert_eq!(check_order(&heap), 2);
}
