use heaps::binary::BinaryHeap;
use heaps::entry::HeapEntry;
use heaps::heap::{DecreaseKeyHeap, Heap};
use heaps::order::key_lt;

fn keys_of(heap: &BinaryHeap<i32, char>) -> Vec<i32> {
    heap.storage.iter().map(|e| e.key).collect()
}

fn from_keys(keys: &[i32]) -> BinaryHeap<i32, char> {
    let mut heap = BinaryHeap::new();
    for &key in keys {
        heap.insert(HeapEntry { key, data: ' ' });
    }
    heap
}

#[test]
fn key_lt_is_strict() {
    assert!(key_lt(&1, &2));
    assert!(!key_lt(&2, &2));
    assert!(!key_lt(&3, &2));
}

#[test]
fn insert_returns_the_resting_position() {
    let mut heap: BinaryHeap<i32, char> = BinaryHeap::new();
    assert_eq!(heap.insert(HeapEntry { key: 5, data: ' ' }), 0);
    assert_eq!(heap.insert(HeapEntry { key: 3, data: ' ' }), 0);
    assert_eq!(keys_of(&heap), vec![3, 5]);
    assert_eq!(heap.insert(HeapEntry { key: 8, data: ' ' }), 2);
    assert_eq!(heap.insert(HeapEntry { key: 1, data: ' ' }), 0);
    assert_eq!(keys_of(&heap), vec![1, 3, 8, 5]);
    assert_eq!(heap.insert(HeapEntry { key: 4, data: ' ' }), 4);
    assert_eq!(keys_of(&heap), vec![1, 3, 8, 5, 4]);
}

#[test]
fn insert_does_not_pass_an_equal_key() {
    let mut heap = BinaryHeap::new();
    heap.insert(HeapEntry { key: 2, data: 'a' });
    let reference = heap.insert(HeapEntry { key: 2, data: 'b' });
    assert_eq!(reference, 1);
    assert_eq!(heap.storage[0].data, 'a');
}

#[test]
fn delete_min_moves_the_last_entry_down() {
    let mut heap = from_keys(&[5, 3, 8, 1, 4]);
    assert_eq!(heap.delete_min().map(|e| e.key), Some(1));
    assert_eq!(keys_of(&heap), vec![3, 4, 8, 5]);
    assert_eq!(heap.delete_min().map(|e| e.key), Some(3));
    assert_eq!(keys_of(&heap), vec![4, 5, 8]);
}

#[test]
fn delete_min_of_a_single_entry_empties_the_heap() {
    let mut heap = from_keys(&[7]);
    assert_eq!(heap.delete_min().map(|e| e.key), Some(7));
    assert!(heap.storage.is_empty());
}

#[test]
fn delete_min_prefers_the_left_of_two_equal_children() {
    let mut heap = BinaryHeap::new();
    for (key, data) in [(1, 'r'), (2, 'b'), (2, 'c'), (3, 'd')] {
        heap.insert(HeapEntry { key, data });
    }
    assert_eq!(heap.delete_min().map(|e| e.data), Some('r'));
    let layout: Vec<(i32, char)> = heap.storage.iter().map(|e| (e.key, e.data)).collect();
    assert_eq!(layout, vec![(2, 'b'), (3, 'd'), (2, 'c')]);
}

#[test]
fn sift_down_stops_at_an_equal_child() {
    let mut heap = BinaryHeap::new();
    for (key, data) in [(1, 'r'), (2, 'b'), (3, 'c'), (2, 'd')] {
        heap.insert(HeapEntry { key, data });
    }
    assert_eq!(heap.delete_min().map(|e| e.data), Some('r'));
    let layout: Vec<(i32, char)> = heap.storage.iter().map(|e| (e.key, e.data)).collect();
    assert_eq!(layout, vec![(2, 'd'), (2, 'b'), (3, 'c')]);
}

#[test]
fn sift_up_moves_an_entry_to_its_place() {
    let mut heap = from_keys(&[1, 3, 8, 5]);
    heap.storage[3].key = 2;
    assert_eq!(heap.sift_up(3), 1);
    assert_eq!(keys_of(&heap), vec![1, 2, 8, 3]);
    assert_eq!(heap.sift_up(0), 0);
    assert_eq!(keys_of(&heap), vec![1, 2, 8, 3]);
}

#[test]
fn sift_down_moves_an_entry_to_its_place() {
    let mut heap = from_keys(&[1, 3, 8, 5, 4]);
    heap.storage[0].key = 9;
    heap.sift_down(0);
    assert_eq!(keys_of(&heap), vec![3, 4, 8, 5, 9]);
    heap.sift_down(4);
    assert_eq!(keys_of(&heap), vec![3, 4, 8, 5, 9]);
}

#[test]
fn decrease_key_moves_the_entry_up() {
    let mut heap = from_keys(&[1, 3, 8, 5, 4]);
    heap.decrease_key(3, 2);
    assert_eq!(keys_of(&heap), vec![1, 2, 8, 3, 4]);
    heap.decrease_key(4, 0);
    assert_eq!(keys_of(&heap), vec![0, 1, 8, 3, 2]);
}

#[test]
fn decrease_key_to_the_same_key_changes_nothing() {
    let mut heap = from_keys(&[1, 3, 8, 5, 4]);
    heap.decrease_key(2, 8);
    assert_eq!(keys_of(&heap), vec![1, 3, 8, 5, 4]);
}

#[test]
fn decrease_key_keeps_the_payload() {
    let mut heap = BinaryHeap::new();
    heap.insert(HeapEntry { key: 1, data: 'a' });
    let reference = heap.insert(HeapEntry { key: 9, data: 'z' });
    heap.decrease_key(reference, 0);
    let least = heap.delete_min().unwrap();
    assert_eq!((least.key, least.data), (0, 'z'));
}

#[test]
fn decreased_to_the_least_key_comes_out_first() {
    let mut heap = from_keys(&[4, 6, 5, 9, 7]);
    heap.decrease_key(3, 1);
    assert_eq!(heap.delete_min().map(|e| e.key), Some(1));
    let mut rest = Vec::new();
    while let Some(e) = heap.delete_min() {
        rest.push(e.key);
    }
    assert_eq!(rest, vec![4, 5, 6, 7]);
}

#[test]
fn heap_order_holds_after_every_operation() {
    let mut heap: BinaryHeap<i32, char> = BinaryHeap::new();
    for step in 0..200i32 {
        if step % 4 == 3 {
            heap.delete_min();
        } else if step % 4 == 2 && !heap.storage.is_empty() {
            let at = (step as usize * 31) % heap.storage.len();
            let key = heap.storage[at].key - (step % 5);
            heap.decrease_key(at, key);
        } else {
            heap.insert(HeapEntry { key: (step * 37) % 61, data: ' ' });
        }
        for i in 1..heap.storage.len() {
            assert!(heap.storage[(i - 1) / 2].key <= heap.storage[i].key);
        }
    }
}
