use crate::entry::HeapEntry;
use crate::heap::{DecreaseKeyHeap, Heap};
use crate::laws::lemma_decreased_entry;
use crate::order::{
    is_minimum, key_lt, le, lemma_le_reflexive, lemma_le_total, lemma_le_transitive, total_order,
};
use vstd::multiset::Multiset;
use vstd::prelude::*;
use vstd::seq_lib::{
    to_multiset_build, to_multiset_contains, to_multiset_remove, to_multiset_update,
};

verus! {

/// The slice method `swap` of the standard library: it exchanges the elements at the
/// two positions and leaves every other element where it is. It panics when a
/// position is out of bounds, which the precondition excludes.
pub assume_specification<T>[ <[T]>::swap ](slice: &mut [T], a: usize, b: usize)
    requires
        a < old(slice)@.len(),
        b < old(slice)@.len(),
    ensures
        final(slice)@ == old(slice)@.update(a as int, old(slice)@[b as int]).update(
            b as int,
            old(slice)@[a as int],
        ),
;

/// `s` with the elements at `i` and `j` exchanged.
pub open spec fn swapped<E>(s: Seq<E>, i: int, j: int) -> Seq<E> {
    s.update(i, s[j]).update(j, s[i])
}

/// The position above `i` in the implicit binary tree.
pub open spec fn parent(i: int) -> int {
    (i - 1) / 2
}

/// The entry at `i` is not before the entry above it.
pub open spec fn ordered_at<K: Ord, D>(s: Seq<HeapEntry<K, D>>, i: int) -> bool {
    le(s[parent(i)].key, s[i].key)
}

/// Every entry but the first is not before the entry above it.
pub open spec fn heap_ordered<K: Ord, D>(s: Seq<HeapEntry<K, D>>) -> bool {
    forall|i: int| 0 < i < s.len() ==> #[trigger] ordered_at(s, i)
}

/// The array after the entry at `i` has moved up: it is exchanged with the entry above
/// it for as long as its key is strictly before that entry's key.
pub open spec fn sifted_up<K: Ord, D>(s: Seq<HeapEntry<K, D>>, i: int) -> Seq<HeapEntry<K, D>>
    decreases i,
{
    if 0 < i < s.len() && !ordered_at(s, i) {
        sifted_up(swapped(s, i, parent(i)), parent(i))
    } else {
        s
    }
}

/// The position at which the entry that started at `i` comes to rest in `sifted_up`.
pub open spec fn sift_up_rest<K: Ord, D>(s: Seq<HeapEntry<K, D>>, i: int) -> int
    decreases i,
{
    if 0 < i < s.len() && !ordered_at(s, i) {
        sift_up_rest(swapped(s, i, parent(i)), parent(i))
    } else {
        i
    }
}

/// The position below `i` that holds the smaller key; the left one when both keys
/// rank equal or when there is no right one.
pub open spec fn smaller_child<K: Ord, D>(s: Seq<HeapEntry<K, D>>, i: int) -> int {
    if 2 * i + 2 < s.len() && !le(s[2 * i + 1].key, s[2 * i + 2].key) {
        2 * i + 2
    } else {
        2 * i + 1
    }
}

/// The array after the entry at `i` has moved down: it is exchanged with its smaller
/// child for as long as that child's key is strictly before its own.
pub open spec fn sifted_down<K: Ord, D>(s: Seq<HeapEntry<K, D>>, i: int) -> Seq<HeapEntry<K, D>>
    decreases s.len() - i,
{
    if 0 <= i && 2 * i + 1 < s.len() && !le(s[i].key, s[smaller_child(s, i)].key) {
        sifted_down(swapped(s, i, smaller_child(s, i)), smaller_child(s, i))
    } else {
        s
    }
}

/// Heap order holds everywhere but possibly between `c` and the entry above it, and
/// the entries below `c` are not before the entry above `c`.
pub open spec fn ordered_but_above<K: Ord, D>(s: Seq<HeapEntry<K, D>>, c: int) -> bool {
    &&& forall|i: int| 0 < i < s.len() && i != c ==> #[trigger] ordered_at(s, i)
    &&& forall|j: int|
        0 < c && 0 < j < s.len() && #[trigger] parent(j) == c ==> le(s[parent(c)].key, s[j].key)
}

/// Heap order holds everywhere but possibly between `c` and the entries below it, and
/// those entries are not before the entry above `c`.
pub open spec fn ordered_but_below<K: Ord, D>(s: Seq<HeapEntry<K, D>>, c: int) -> bool {
    &&& forall|i: int| 0 < i < s.len() && parent(i) != c ==> #[trigger] ordered_at(s, i)
    &&& forall|j: int|
        0 < c && 0 < j < s.len() && #[trigger] parent(j) == c ==> le(s[parent(c)].key, s[j].key)
}

pub proof fn lemma_swapped_multiset<E>(s: Seq<E>, i: int, j: int)
    requires
        0 <= i < s.len(),
        0 <= j < s.len(),
    ensures
        swapped(s, i, j).to_multiset() == s.to_multiset(),
        swapped(s, i, j).len() == s.len(),
{
    let t = s.update(i, s[j]);
    to_multiset_update(s, i, s[j]);
    to_multiset_update(t, j, s[i]);
    to_multiset_contains(s, s[i]);
    to_multiset_contains(s, s[j]);
    assert(s.contains(s[i]));
    assert(s.contains(s[j]));
    assert(swapped(s, i, j).to_multiset() =~= s.to_multiset());
}

/// In a heap-ordered array no entry is before the first.
pub proof fn lemma_root_is_least<K: Ord, D>(s: Seq<HeapEntry<K, D>>, i: int)
    requires
        total_order::<K>(),
        heap_ordered(s),
        0 <= i < s.len(),
    ensures
        le(s[0].key, s[i].key),
    decreases i,
{
    if i == 0 {
        lemma_le_reflexive(s[0].key);
    } else {
        lemma_root_is_least(s, parent(i));
        assert(ordered_at(s, i));
        lemma_le_transitive(s[0].key, s[parent(i)].key, s[i].key);
    }
}

/// The first entry of a non-empty heap-ordered array is a minimum of its entries.
pub proof fn lemma_root_is_minimum<K: Ord, D>(s: Seq<HeapEntry<K, D>>)
    requires
        total_order::<K>(),
        heap_ordered(s),
        s.len() > 0,
    ensures
        is_minimum(s.to_multiset(), s[0]),
{
    to_multiset_contains(s, s[0]);
    assert(s.contains(s[0]));
    assert forall|x: HeapEntry<K, D>| s.to_multiset().count(x) > 0 implies le(s[0].key, x.key) by {
        to_multiset_contains(s, x);
        let i = choose|i: int| 0 <= i < s.len() && s[i] == x;
        lemma_root_is_least(s, i);
    }
}

proof fn lemma_up_step<K: Ord, D>(s: Seq<HeapEntry<K, D>>, c: int)
    requires
        total_order::<K>(),
        0 < c < s.len(),
        ordered_but_above(s, c),
        !ordered_at(s, c),
    ensures
        ordered_but_above(swapped(s, c, parent(c)), parent(c)),
{
    let p = parent(c);
    let t = swapped(s, c, p);
    lemma_le_total(s[p].key, s[c].key);
    assert forall|i: int| 0 < i < t.len() && i != p implies #[trigger] ordered_at(t, i) by {
        if i == c {
        } else if parent(i) == c {
        } else if parent(i) == p {
            assert(ordered_at(s, i));
            lemma_le_transitive(s[c].key, s[p].key, s[i].key);
        } else {
            assert(ordered_at(s, i));
        }
    }
    assert forall|j: int| 0 < p && 0 < j < t.len() && #[trigger] parent(j) == p implies le(
        t[parent(p)].key,
        t[j].key,
    ) by {
        assert(ordered_at(s, p));
        if j != c {
            assert(ordered_at(s, j));
            lemma_le_transitive(s[parent(p)].key, s[p].key, s[j].key);
        }
    }
}

proof fn lemma_up_done<K: Ord, D>(s: Seq<HeapEntry<K, D>>, c: int)
    requires
        0 <= c < s.len(),
        ordered_but_above(s, c),
        c == 0 || ordered_at(s, c),
    ensures
        heap_ordered(s),
{
}

proof fn lemma_down_step<K: Ord, D>(s: Seq<HeapEntry<K, D>>, c: int)
    requires
        total_order::<K>(),
        0 <= c,
        2 * c + 1 < s.len(),
        ordered_but_below(s, c),
        !le(s[c].key, s[smaller_child(s, c)].key),
    ensures
        ordered_but_below(swapped(s, c, smaller_child(s, c)), smaller_child(s, c)),
{
    let m = smaller_child(s, c);
    let t = swapped(s, c, m);
    lemma_le_total(s[c].key, s[m].key);
    assert(parent(m) == c);
    assert forall|i: int| 0 < i < t.len() && parent(i) != m implies #[trigger] ordered_at(t, i) by {
        if i == m {
        } else if parent(i) == c {
            lemma_le_total(s[2 * c + 1].key, s[2 * c + 2].key);
        } else if i == c {
            assert(parent(m) == c);
        } else {
            assert(ordered_at(s, i));
        }
    }
    assert forall|j: int| 0 < m && 0 < j < t.len() && #[trigger] parent(j) == m implies le(
        t[parent(m)].key,
        t[j].key,
    ) by {
        assert(ordered_at(s, j));
    }
}

proof fn lemma_down_done<K: Ord, D>(s: Seq<HeapEntry<K, D>>, c: int)
    requires
        total_order::<K>(),
        0 <= c,
        ordered_but_below(s, c),
        2 * c + 1 >= s.len() || le(s[c].key, s[smaller_child(s, c)].key),
    ensures
        heap_ordered(s),
{
    assert forall|i: int| 0 < i < s.len() implies #[trigger] ordered_at(s, i) by {
        if parent(i) == c {
            let m = smaller_child(s, c);
            if i != m {
                lemma_le_total(s[2 * c + 1].key, s[2 * c + 2].key);
                lemma_le_transitive(s[c].key, s[m].key, s[i].key);
            }
        }
    }
}

/// An array-backed binary min-heap. An entry is designated by its current position,
/// which any later operation may change.
pub struct BinaryHeap<K, D> {
    pub storage: Vec<HeapEntry<K, D>>,
}

impl<K, D> View for BinaryHeap<K, D> {
    type V = Seq<HeapEntry<K, D>>;

    open spec fn view(&self) -> Seq<HeapEntry<K, D>> {
        self.storage@
    }
}

impl<K, D> BinaryHeap<K, D> {
    /// An empty heap.
    pub fn new() -> (heap: BinaryHeap<K, D>)
        ensures
            heap@.len() == 0,
    {
        BinaryHeap { storage: Vec::new() }
    }
}

impl<K: Ord, D> BinaryHeap<K, D> {
    /// Moves the entry at `start` up until the entry above it is not after it, and
    /// returns where it came to rest.
    pub fn sift_up(&mut self, start: usize) -> (rest: usize)
        requires
            total_order::<K>(),
            start < old(self)@.len(),
            ordered_but_above(old(self)@, start as int),
        ensures
            final(self)@ == sifted_up(old(self)@, start as int),
            rest == sift_up_rest(old(self)@, start as int),
            rest <= start,
            final(self)@.len() == old(self)@.len(),
            final(self)@[rest as int] == old(self)@[start as int],
            final(self)@.to_multiset() == old(self)@.to_multiset(),
            heap_ordered(final(self)@),
    {
        let mut current_index: usize = start;
        while current_index != 0
            invariant_except_break
                total_order::<K>(),
                current_index <= start,
                start < old(self)@.len(),
                self@.len() == old(self)@.len(),
                ordered_but_above(self@, current_index as int),
                sifted_up(self@, current_index as int) == sifted_up(old(self)@, start as int),
                sift_up_rest(self@, current_index as int) == sift_up_rest(
                    old(self)@,
                    start as int,
                ),
                self@[current_index as int] == old(self)@[start as int],
                self@.to_multiset() == old(self)@.to_multiset(),
            ensures
                current_index <= start,
                self@ == sifted_up(old(self)@, start as int),
                current_index == sift_up_rest(old(self)@, start as int),
                self@.len() == old(self)@.len(),
                self@[current_index as int] == old(self)@[start as int],
                self@.to_multiset() == old(self)@.to_multiset(),
                heap_ordered(self@),
            decreases current_index,
        {
            let parent_index: usize = (current_index - 1) / 2;
            if key_lt(&self.storage[current_index].key, &self.storage[parent_index].key) {
                proof {
                    lemma_up_step(self@, current_index as int);
                    lemma_swapped_multiset(self@, current_index as int, parent_index as int);
                }
                self.storage.swap(current_index, parent_index);
                current_index = parent_index;
            } else {
                proof {
                    lemma_up_done(self@, current_index as int);
                }
                break ;
            }
        }
        current_index
    }
}

impl<K: Ord, D> BinaryHeap<K, D> {
    /// Moves the entry at `start` down until neither entry below it is before it.
    pub fn sift_down(&mut self, start: usize)
        requires
            total_order::<K>(),
            ordered_but_below(old(self)@, start as int),
        ensures
            final(self)@ == sifted_down(old(self)@, start as int),
            final(self)@.len() == old(self)@.len(),
            final(self)@.to_multiset() == old(self)@.to_multiset(),
            heap_ordered(final(self)@),
    {
        let len: usize = self.storage.len();
        let mut current_index: usize = start;
        loop
            invariant_except_break
                total_order::<K>(),
                len == self@.len(),
                self@.len() == old(self)@.len(),
                ordered_but_below(self@, current_index as int),
                sifted_down(self@, current_index as int) == sifted_down(old(self)@, start as int),
                self@.to_multiset() == old(self)@.to_multiset(),
            ensures
                self@ == sifted_down(old(self)@, start as int),
                self@.len() == old(self)@.len(),
                self@.to_multiset() == old(self)@.to_multiset(),
                heap_ordered(self@),
            decreases len - current_index,
        {
            if current_index >= len / 2 {
                proof {
                    lemma_down_done(self@, current_index as int);
                }
                break ;
            }
            let child_index: usize = 2 * current_index + 1;
            let min_index: usize = if child_index + 1 < len && key_lt(
                &self.storage[child_index + 1].key,
                &self.storage[child_index].key,
            ) {
                child_index + 1
            } else {
                child_index
            };
            assert(min_index == smaller_child(self@, current_index as int));
            if key_lt(&self.storage[min_index].key, &self.storage[current_index].key) {
                proof {
                    lemma_down_step(self@, current_index as int);
                    lemma_swapped_multiset(self@, current_index as int, min_index as int);
                }
                self.storage.swap(current_index, min_index);
                current_index = min_index;
            } else {
                proof {
                    lemma_down_done(self@, current_index as int);
                }
                break ;
            }
        }
    }
}

impl<K: Ord, D> Heap<K, D> for BinaryHeap<K, D> {
    type EntryRef = usize;

    open spec fn wf(&self) -> bool {
        heap_ordered(self@)
    }

    open spec fn contents(&self) -> Multiset<HeapEntry<K, D>> {
        self@.to_multiset()
    }

    /// Appends `entry` and moves it up to its place; the result is the position at
    /// which it came to rest.
    fn insert(&mut self, entry: HeapEntry<K, D>) -> (reference: usize)
        ensures
            final(self)@ == sifted_up(old(self)@.push(entry), old(self)@.len() as int),
            reference == sift_up_rest(old(self)@.push(entry), old(self)@.len() as int),
            reference < final(self)@.len(),
            final(self)@.len() == old(self)@.len() + 1,
            final(self)@[reference as int] == entry,
    {
        self.storage.push(entry);
        let last: usize = self.storage.len() - 1;
        proof {
            let s = self@;
            to_multiset_build(old(self)@, entry);
            assert forall|i: int| 0 < i < s.len() && i != last implies #[trigger] ordered_at(
                s,
                i,
            ) by {
                assert(ordered_at(old(self)@, i));
            }
        }
        self.sift_up(last)
    }

    /// Takes the first entry out, puts the last entry in its place and moves that one
    /// down to its place.
    fn delete_min(&mut self) -> (result: Option<HeapEntry<K, D>>)
        ensures
            old(self)@.len() == 0 ==> result is None && final(self)@ == old(self)@,
            old(self)@.len() > 0 ==> result == Some(old(self)@[0]) && final(self)@ == sifted_down(
                swapped(old(self)@, 0, old(self)@.len() - 1).drop_last(),
                0,
            ),
    {
        proof {
            old(self)@.to_multiset_ensures();
            if old(self)@.len() > 0 {
                lemma_root_is_minimum(old(self)@);
                lemma_swapped_multiset(old(self)@, 0, old(self)@.len() - 1);
                let t = swapped(old(self)@, 0, old(self)@.len() - 1);
                to_multiset_remove(t, t.len() - 1);
                assert(t.drop_last() =~= t.remove(t.len() - 1));
            }
        }
        if self.storage.len() <= 1 {
            let val = self.storage.pop();
            proof {
                if old(self)@.len() == 1 {
                    let t = swapped(old(self)@, 0, 0);
                    assert(t =~= old(self)@);
                    assert(self@ =~= t.drop_last());
                }
            }
            return val;
        }
        let len: usize = self.storage.len();
        self.storage.swap(0, len - 1);
        let root = self.storage.pop();
        proof {
            let s = self@;
            assert forall|i: int| 0 < i < s.len() && parent(i) != 0 implies #[trigger] ordered_at(
                s,
                i,
            ) by {
                assert(ordered_at(old(self)@, i));
            }
        }
        self.sift_down(0);
        root
    }
}

impl<K: Ord, D> DecreaseKeyHeap<K, D> for BinaryHeap<K, D> {
    open spec fn lookup(&self, reference: usize) -> Option<HeapEntry<K, D>> {
        if reference < self@.len() {
            Some(self@[reference as int])
        } else {
            None
        }
    }

    /// Overwrites the key at position `reference` and moves the entry up to its place.
    fn decrease_key(&mut self, reference: usize, new_key: K)
        ensures
            final(self)@ == sifted_up(
                old(self)@.update(
                    reference as int,
                    (HeapEntry { key: new_key, data: old(self)@[reference as int].data }),
                ),
                reference as int,
            ),
            final(self)@.len() == old(self)@.len(),
            ({
                let moved = HeapEntry { key: new_key, data: old(self)@[reference as int].data };
                let rest = sift_up_rest(old(self)@.update(reference as int, moved), reference as int);
                &&& 0 <= rest <= reference
                &&& final(self)@[rest] == moved
                &&& (forall|x: HeapEntry<K, D>|
                    old(self).contents().count(x) > 0 ==> le(new_key, x.key)) ==> is_minimum(
                    final(self).contents(),
                    moved,
                )
            }),
    {
        assert(reference < old(self)@.len());
        proof {
            to_multiset_contains(old(self)@, old(self)@[reference as int]);
            assert(old(self)@.contains(old(self)@[reference as int]));
            lemma_decreased_entry(old(self).contents(), old(self)@[reference as int], new_key);
        }
        self.storage[reference].key = new_key;
        proof {
            let s = self@;
            let c = reference as int;
            let before = old(self)@;
            to_multiset_update(before, c, s[c]);
            to_multiset_contains(before, before[c]);
            assert(before.contains(before[c]));
            assert(s.to_multiset() =~= before.to_multiset().remove(before[c]).insert(s[c]));
            assert forall|i: int| 0 < i < s.len() && i != c implies #[trigger] ordered_at(
                s,
                i,
            ) by {
                assert(ordered_at(before, i));
                if parent(i) == c {
                    lemma_le_transitive(new_key, before[c].key, before[i].key);
                }
            }
            assert forall|j: int| 0 < c && 0 < j < s.len() && #[trigger] parent(j) == c implies le(
                s[parent(c)].key,
                s[j].key,
            ) by {
                assert(ordered_at(before, j));
                assert(ordered_at(before, c));
                lemma_le_transitive(before[parent(c)].key, before[c].key, before[j].key);
            }
        }
        self.sift_up(reference);
    }
}

} // verus!
