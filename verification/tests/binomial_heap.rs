use heaps::binomial::{BinomialHeap, BinomialTree};
use heaps::entry::HeapEntry;
use heaps::heap::Heap;

fn leaf(key: u32, data: char) -> BinomialTree<u32, char> {
    BinomialTree { root: HeapEntry { key, data }, childs: Vec::new() }
}

fn heap_of(keys: std::ops::Range<u32>) -> BinomialHeap<u32, char> {
    let mut heap = BinomialHeap::new();
    for key in keys {
        heap.insert(HeapEntry { key, data: ' ' });
    }
    heap
}

fn size_of_tree(tree: &BinomialTree<u32, char>) -> usize {
    1 + tree.childs.iter().map(size_of_tree).sum::<usize>()
}

fn check_tree(tree: &BinomialTree<u32, char>, rank: usize) {
    assert_eq!(tree.childs.len(), rank);
    for (i, child) in tree.childs.iter().enumerate() {
        assert!(tree.root.key <= child.root.key);
        check_tree(child, i);
    }
    assert_eq!(size_of_tree(tree), 1 << rank);
}

fn check_heap(heap: &BinomialHeap<u32, char>, size: usize) {
    for (rank, slot) in heap.ranks.iter().enumerate() {
        assert_eq!(slot.is_some(), (size >> rank) & 1 == 1);
        if let Some(tree) = slot {
            check_tree(tree, rank);
        }
    }
    assert_eq!(size >> heap.ranks.len(), 0);
}

#[test]
fn linking_puts_the_larger_root_below() {
    let mut tree = leaf(5, 'a');
    tree.merge(leaf(3, 'b'));
    assert_eq!(tree.root.key, 3);
    assert_eq!(tree.childs.len(), 1);
    assert_eq!(tree.childs[0].root.key, 5);
    tree.merge(leaf(4, 'c'));
    assert_eq!(tree.root.key, 3);
    assert_eq!(tree.childs.len(), 2);
    assert_eq!(tree.childs[1].root.key, 4);
}

#[test]
fn linking_equal_roots_keeps_the_receiver_on_top() {
    let mut tree = leaf(2, 'a');
    tree.merge(leaf(2, 'b'));
    assert_eq!(tree.root.data, 'a');
    assert_eq!(tree.childs[0].root.data, 'b');
}

#[test]
fn occupied_ranks_are_the_binary_digits_of_the_size() {
    let mut heap = BinomialHeap::new();
    for size in 1..=70usize {
        heap.insert(HeapEntry { key: (size as u32 * 29) % 17, data: ' ' });
        check_heap(&heap, size);
    }
    for size in (0..70usize).rev() {
        assert!(heap.delete_min().is_some());
        check_heap(&heap, size);
    }
}

#[test]
fn merge_adds_sizes_and_keeps_the_smaller_minimum() {
    for a in 0..12u32 {
        for b in 0..12u32 {
            let mut left = heap_of(100..100 + a);
            let right = heap_of(50..50 + b);
            left.merge(right);
            check_heap(&left, (a + b) as usize);
            let expected = if b > 0 {
                Some(50)
            } else if a > 0 {
                Some(100)
            } else {
                None
            };
            assert_eq!(left.delete_min().map(|e| e.key), expected);
        }
    }
}

#[test]
fn merge_of_a_larger_heap_into_a_smaller_one() {
    let mut small = heap_of(0..3);
    let large = heap_of(10..23);
    small.merge(large);
    check_heap(&small, 16);
    assert_eq!(small.ranks.len(), 5);
    let mut keys = Vec::new();
    while let Some(e) = small.delete_min() {
        keys.push(e.key);
    }
    let expected: Vec<u32> = (0..3).chain(10..23).collect();
    assert_eq!(keys, expected);
}

#[test]
fn merge_carries_through_every_rank() {
    let mut heap = heap_of(0..7);
    heap.merge(heap_of(7..8));
    assert_eq!(heap.ranks.len(), 4);
    assert!(heap.ranks[0].is_none() && heap.ranks[1].is_none() && heap.ranks[2].is_none());
    check_heap(&heap, 8);
}

#[test]
fn merge_with_three_trees_of_one_rank_keeps_the_carried_one_in_place() {
    let mut heap = heap_of(0..3);
    heap.merge(heap_of(10..13));
    check_heap(&heap, 6);
    let kept = heap.ranks[1].as_ref().unwrap();
    assert_eq!(kept.root.key, 2);
    assert_eq!(kept.childs[0].root.key, 12);
}

#[test]
fn delete_min_takes_the_first_of_equal_roots() {
    let mut heap = BinomialHeap::new();
    heap.insert(HeapEntry { key: 1u32, data: 'a' });
    heap.insert(HeapEntry { key: 1, data: 'b' });
    heap.insert(HeapEntry { key: 1, data: 'c' });
    assert_eq!(heap.delete_min().map(|e| e.data), Some('c'));
    assert_eq!(heap.delete_min().map(|e| e.data), Some('a'));
    assert_eq!(heap.delete_min().map(|e| e.data), Some('b'));
    assert!(heap.delete_min().is_none());
}

#[test]
fn emptied_heap_yields_nothing_and_keeps_its_slots() {
    let mut heap = heap_of(0..4);
    for _ in 0..4 {
        assert!(heap.delete_min().is_some());
    }
    let slots = heap.ranks.len();
    assert!(heap.delete_min().is_none());
    assert_eq!(heap.ranks.len(), slots);
    assert!(heap.ranks.iter().all(|slot| slot.is_none()));
}

#[test]
fn insert_into_an_empty_heap_fills_the_first_slot() {
    let mut heap = BinomialHeap::new();
    heap.insert(HeapEntry { key: 7u32, data: 'a' });
    assert_eq!(heap.ranks.len(), 1);
    let tree = heap.ranks[0].as_ref().unwrap();
    assert_eq!((tree.root.key, tree.root.data), (7, 'a'));
    assert!(tree.childs.is_empty());
}

#[test]
fn insert_links_the_receivers_tree_with_the_new_one() {
    let mut heap = BinomialHeap::new();
    heap.insert(HeapEntry { key: 7u32, data: 'a' });
    heap.insert(HeapEntry { key: 9, data: 'b' });
    assert_eq!(heap.ranks.len(), 2);
    assert!(heap.ranks[0].is_none());
    let tree = heap.ranks[1].as_ref().unwrap();
    assert_eq!(tree.root.data, 'a');
    assert_eq!(tree.childs[0].root.data, 'b');
}

#[test]
fn delete_min_merges_the_subtrees_back() {
    let mut heap = heap_of(0..4);
    assert_eq!(heap.ranks.len(), 3);
    assert_eq!(heap.delete_min().map(|e| e.key), Some(0));
    assert_eq!(heap.ranks.len(), 3);
    assert!(heap.ranks[2].is_none());
    assert_eq!(heap.ranks[0].as_ref().unwrap().root.key, 1);
    let pair = heap.ranks[1].as_ref().unwrap();
    assert_eq!(pair.root.key, 2);
    assert_eq!(pair.childs[0].root.key, 3);
}
