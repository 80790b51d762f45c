use crate::entry::HeapEntry;
use crate::heap::Heap;
use crate::order::{
    key_lt, le, lemma_le_reflexive, lemma_le_total, lemma_le_transitive, total_order,
};
use vstd::multiset::Multiset;
use vstd::prelude::*;

verus! {

/// A binary tree in min-heap order with no balance condition: melding descends into
/// a child chosen by a coin flip, which keeps the expected depth logarithmic.
pub struct RandomizedMeldableHeap<K, D> {
    pub root: Option<Box<Node<K, D>>>,
}

/// A node of the tree: an entry and the heaps below it.
pub struct Node<K, D> {
    pub value: HeapEntry<K, D>,
    pub left: RandomizedMeldableHeap<K, D>,
    pub right: RandomizedMeldableHeap<K, D>,
}

/// A fair coin: `rand::random` for `bool`, which draws from the generator of the
/// current thread. Nothing is claimed of the outcome. The call panics only where the
/// operating system cannot seed that generator.
#[verifier::external_body]
fn coin_flip() -> (heads: bool) {
    rand::random()
}

impl<K, D> RandomizedMeldableHeap<K, D> {
    /// The entries of the tree, with multiplicity.
    pub open spec fn entries(self) -> Multiset<HeapEntry<K, D>>
        decreases self,
    {
        match self.root {
            None => Multiset::empty(),
            Some(node) => node.left.entries().add(node.right.entries()).insert(node.value),
        }
    }
}

impl<K, D> RandomizedMeldableHeap<K, D> {
    /// The number of nodes of the tree.
    pub open spec fn size(self) -> nat
        decreases self,
    {
        match self.root {
            None => 0,
            Some(node) => 1 + node.left.size() + node.right.size(),
        }
    }
}

/// The heap of the single node that holds `entry`.
pub open spec fn single<K, D>(entry: HeapEntry<K, D>) -> RandomizedMeldableHeap<K, D> {
    RandomizedMeldableHeap {
        root: Some(
            Box::new(
                Node {
                    value: entry,
                    left: RandomizedMeldableHeap { root: None },
                    right: RandomizedMeldableHeap { root: None },
                },
            ),
        ),
    }
}

/// `result` is a meld of `first` and `second`: if one is empty, the other; else the
/// root that is not after the other root, that of `first` on ties, stays on top with
/// one of its children as it was, and its other child is a meld of that child and the
/// heap of the other root.
pub open spec fn melded<K: Ord, D>(
    first: RandomizedMeldableHeap<K, D>,
    second: RandomizedMeldableHeap<K, D>,
    result: RandomizedMeldableHeap<K, D>,
) -> bool
    decreases first.size() + second.size(),
{
    match (first.root, second.root) {
        (None, _) => result == second,
        (Some(_), None) => result == first,
        (Some(mine), Some(theirs)) => {
            let top = if le(mine.value.key, theirs.value.key) {
                mine
            } else {
                theirs
            };
            let below = if le(mine.value.key, theirs.value.key) {
                second
            } else {
                first
            };
            &&& result.root is Some
            &&& result.root.unwrap().value == top.value
            &&& {
                ||| result.root.unwrap().left == top.left && melded(
                    top.right,
                    below,
                    result.root.unwrap().right,
                )
                ||| result.root.unwrap().right == top.right && melded(
                    top.left,
                    below,
                    result.root.unwrap().left,
                )
            }
        },
    }
}

impl<K: Ord, D> RandomizedMeldableHeap<K, D> {
    /// The root, if there is one, is not before `key`.
    pub open spec fn not_before(self, key: K) -> bool {
        self.root matches Some(node) ==> le(key, node.value.key)
    }

    /// No node's entry is after the entries at the roots of the heaps below it.
    pub open spec fn min_ordered(self) -> bool
        decreases self,
    {
        match self.root {
            None => true,
            Some(node) => {
                &&& node.left.min_ordered()
                &&& node.right.min_ordered()
                &&& node.left.not_before(node.value.key)
                &&& node.right.not_before(node.value.key)
            },
        }
    }

    /// No entry of a min-ordered heap is before the entry at its root.
    pub proof fn lemma_root_is_least(self, x: HeapEntry<K, D>)
        requires
            total_order::<K>(),
            self.min_ordered(),
            self.entries().count(x) > 0,
        ensures
            self.root is Some,
            le(self.root.unwrap().value.key, x.key),
        decreases self,
    {
        let node = self.root.unwrap();
        if node.left.entries().count(x) > 0 {
            node.left.lemma_root_is_least(x);
            lemma_le_transitive(node.value.key, node.left.root.unwrap().value.key, x.key);
        } else if node.right.entries().count(x) > 0 {
            node.right.lemma_root_is_least(x);
            lemma_le_transitive(node.value.key, node.right.root.unwrap().value.key, x.key);
        } else {
            assert(x == node.value);
            lemma_le_reflexive(x.key);
        }
    }

    /// An empty heap.
    pub fn new() -> (heap: Self)
        ensures
            heap.root is None,
            heap.wf(),
            heap.contents() == Multiset::<HeapEntry<K, D>>::empty(),
    {
        RandomizedMeldableHeap::<K, D> { root: None }
    }

    /// Moves all the entries of `other` into the receiver. Where both have a root, the
    /// root that is not after the other stays on top, the receiver's on ties, and the
    /// other heap is melded into its left or right child as a coin decides.
    pub fn meld(&mut self, other: Self)
        requires
            total_order::<K>(),
            old(self).min_ordered(),
            other.min_ordered(),
        ensures
            final(self).min_ordered(),
            final(self).entries() == old(self).entries().add(other.entries()),
            melded(*old(self), other, *final(self)),
            final(self).root is None <==> old(self).root is None && other.root is None,
            final(self).root matches Some(node) ==> (old(self).root matches Some(mine)
                && node.value == mine.value) || (other.root matches Some(theirs) && node.value
                == theirs.value),
        decreases old(self).size() + other.size(), 1int,
    {
        let mut rest = other;
        match self.root.take() {
            Some(mut root) => {
                match rest.root.take() {
                    Some(mut other_root) => {
                        if key_lt(&other_root.value.key, &root.value.key) {
                            core::mem::swap(&mut root, &mut other_root);
                        }
                        proof {
                            lemma_le_total(root.value.key, other_root.value.key);
                        }
                        let below = RandomizedMeldableHeap { root: Some(other_root) };
                        let go_right = coin_flip();
                        root.meld_below(below, go_right);
                        proof {
                            assert(root.left.entries().add(root.right.entries()).insert(
                                root.value,
                            ) =~= old(self).entries().add(other.entries()));
                        }
                    },
                    None => {
                        proof {
                            assert(old(self).entries().add(other.entries()) =~= old(
                                self,
                            ).entries());
                        }
                    },
                }
                self.root = Some(root);
            },
            None => {
                proof {
                    assert(old(self).entries().add(other.entries()) =~= other.entries());
                }
                *self = rest;
            },
        }
    }
}

impl<K: Ord, D> Node<K, D> {
    /// Melds `other` into the right child when `go_right` holds, else into the left
    /// one, and leaves the entry and the other child as they are.
    pub fn meld_below(&mut self, other: RandomizedMeldableHeap<K, D>, go_right: bool)
        requires
            total_order::<K>(),
            old(self).left.min_ordered(),
            old(self).right.min_ordered(),
            old(self).left.not_before(old(self).value.key),
            old(self).right.not_before(old(self).value.key),
            other.min_ordered(),
            other.not_before(old(self).value.key),
        ensures
            final(self).value == old(self).value,
            final(self).left.min_ordered(),
            final(self).right.min_ordered(),
            final(self).left.not_before(final(self).value.key),
            final(self).right.not_before(final(self).value.key),
            go_right ==> {
                &&& final(self).left == old(self).left
                &&& melded(old(self).right, other, final(self).right)
                &&& final(self).right.entries() == old(self).right.entries().add(other.entries())
            },
            !go_right ==> {
                &&& final(self).right == old(self).right
                &&& melded(old(self).left, other, final(self).left)
                &&& final(self).left.entries() == old(self).left.entries().add(other.entries())
            },
        decreases old(self).left.size() + old(self).right.size() + 1 + other.size(), 0int,
    {
        if go_right {
            self.right.meld(other);
        } else {
            self.left.meld(other);
        }
    }
}

impl<K: Ord, D> Heap<K, D> for RandomizedMeldableHeap<K, D> {
    type EntryRef = ();

    open spec fn wf(&self) -> bool {
        self.min_ordered()
    }

    open spec fn contents(&self) -> Multiset<HeapEntry<K, D>> {
        self.entries()
    }

    /// Melds a heap of the single node that holds `entry` into the receiver.
    fn insert(&mut self, entry: HeapEntry<K, D>)
        ensures
            melded(*old(self), single(entry), *final(self)),
    {
        let node = Node {
            value: entry,
            left: RandomizedMeldableHeap { root: None },
            right: RandomizedMeldableHeap { root: None },
        };
        let other = RandomizedMeldableHeap { root: Some(Box::new(node)) };
        proof {
            let leaf = RandomizedMeldableHeap::<K, D> { root: None };
            assert(leaf.entries() == Multiset::<HeapEntry<K, D>>::empty());
            assert(leaf.min_ordered());
            assert(other.root.unwrap().left == leaf && other.root.unwrap().right == leaf);
            assert(other.min_ordered());
            assert(other.entries() =~= Multiset::empty().insert(entry));
            assert(old(self).entries().add(other.entries()) =~= old(self).entries().insert(entry));
        }
        self.meld(other)
    }

    /// Detaches the root, melds the heaps below it into the new heap and returns the
    /// root's entry.
    fn delete_min(&mut self) -> (result: Option<HeapEntry<K, D>>)
        ensures
            old(self).root is None ==> result is None && *final(self) == *old(self),
            old(self).root matches Some(node) ==> result == Some(node.value) && melded(
                node.left,
                node.right,
                *final(self),
            ),
    {
        match self.root.take() {
            Some(root) => {
                let Node { value, mut left, right } = *root;
                proof {
                    assert forall|x: HeapEntry<K, D>|
                        old(self).entries().count(x) > 0 implies le(value.key, x.key) by {
                        old(self).lemma_root_is_least(x);
                    }
                    assert(left.entries().add(right.entries()) =~= old(self).entries().remove(
                        value,
                    ));
                }
                left.meld(right);
                *self = left;
                Some(value)
            },
            None => None,
        }
    }
}

} // verus!
