use crate::entry::HeapEntry;
use crate::order::{extraction, le, total_order};
use vstd::multiset::Multiset;
use vstd::prelude::*;

verus! {

/// A min-priority queue of keyed entries.
pub trait Heap<K: Ord, D>: Sized {
    /// What `insert` hands back to find the entry again, where the structure supports
    /// it. A reference holds only until the next operation, which may move entries.
    type EntryRef;

    /// The structural invariant that every operation expects and restores.
    spec fn wf(&self) -> bool;

    /// The stored entries, with multiplicity.
    spec fn contents(&self) -> Multiset<HeapEntry<K, D>>;

    /// Stores `entry`.
    fn insert(&mut self, entry: HeapEntry<K, D>) -> (reference: Self::EntryRef)
        requires
            total_order::<K>(),
            old(self).wf(),
        ensures
            final(self).wf(),
            final(self).contents() == old(self).contents().insert(entry),
    ;

    /// Removes and returns an entry with the least key, or `None` when nothing is stored.
    fn delete_min(&mut self) -> (result: Option<HeapEntry<K, D>>)
        requires
            total_order::<K>(),
            old(self).wf(),
        ensures
            final(self).wf(),
            extraction(old(self).contents(), result, final(self).contents()),
    ;
}

/// A priority queue whose entries can be moved towards the front after insertion.
pub trait DecreaseKeyHeap<K: Ord, D>: Heap<K, D> {
    /// The entry that `reference` currently designates, if any.
    spec fn lookup(&self, reference: Self::EntryRef) -> Option<HeapEntry<K, D>>;

    /// Replaces the key of the designated entry by `new_key`, which must not be after
    /// the current key. A key that is after it, or a reference that designates no
    /// entry, is an error of the caller that the precondition rules out; nothing is
    /// tested at run time, and a later key would leave the structure out of order.
    fn decrease_key(&mut self, reference: Self::EntryRef, new_key: K)
        requires
            total_order::<K>(),
            old(self).wf(),
            old(self).lookup(reference) is Some,
            le(new_key, old(self).lookup(reference).unwrap().key),
        ensures
            final(self).wf(),
            final(self).contents() == old(self).contents().remove(
                old(self).lookup(reference).unwrap(),
            ).insert(
                (HeapEntry { key: new_key, data: old(self).lookup(reference).unwrap().data }),
            ),
    ;
}

} // verus!
