use crate::digits::{bit, lemma_bit_below, lemma_bit_top};
use crate::entry::HeapEntry;
use crate::heap::Heap;
use crate::order::{
    is_minimum, key_lt, le, lemma_le_reflexive, lemma_le_total, lemma_le_transitive, total_order,
};
use vstd::arithmetic::power2::{lemma2_to64, lemma_pow2_pos, lemma_pow2_unfold, pow2};
use vstd::multiset::Multiset;
use vstd::prelude::*;

verus! {

/// A tree whose root is stored together with its subtrees, smallest first.
#[derive(Debug)]
pub struct BinomialTree<K, D> {
    pub root: HeapEntry<K, D>,
    pub childs: Vec<BinomialTree<K, D>>,
}

/// The entries of all the trees of `trees`, with multiplicity.
pub open spec fn forest_contents<K, D>(trees: Seq<BinomialTree<K, D>>) -> Multiset<HeapEntry<K, D>>
    decreases trees,
{
    if trees.len() == 0 {
        Multiset::empty()
    } else {
        forest_contents(trees.drop_last()).add(trees.last().contents())
    }
}

impl<K, D> BinomialTree<K, D> {
    /// The entries of the tree, with multiplicity.
    pub open spec fn contents(self) -> Multiset<HeapEntry<K, D>>
        decreases self,
    {
        forest_contents(self.childs@).insert(self.root)
    }
}

impl<K: Ord, D> BinomialTree<K, D> {
    /// The tree is a min-ordered binomial tree of the given rank: it has one subtree
    /// of each smaller rank, in rising order, and no subtree's root is before its own.
    pub open spec fn is_binomial(self, rank: nat) -> bool
        decreases self,
    {
        &&& self.childs@.len() == rank
        &&& forall|i: int|
            0 <= i < self.childs@.len() ==> {
                &&& (#[trigger] self.childs@[i]).is_binomial(i as nat)
                &&& le(self.root.key, self.childs@[i].root.key)
            }
    }

    /// Links two trees: the one whose root is strictly after the other's becomes the
    /// last subtree of the other. On equal keys the receiver stays on top.
    pub fn merge(&mut self, other: Self)
        requires
            total_order::<K>(),
        ensures
            linked(*old(self), other, *final(self)),
            final(self).contents() == old(self).contents().add(other.contents()),
            forall|rank: nat|
                old(self).is_binomial(rank) && other.is_binomial(rank) ==> final(self).is_binomial(
                    rank + 1,
                ),
    {
        let mut other = other;
        if key_lt(&other.root.key, &self.root.key) {
            core::mem::swap(self, &mut other);
        }
        proof {
            lemma_le_total(self.root.key, other.root.key);
            assert(self.childs@.push(other).drop_last() =~= self.childs@);
        }
        self.childs.push(other);
    }
}

/// `result` is `first` linked with `second`: the root of `first` stays on top unless
/// it is strictly after the root of `second`, and the other tree becomes the last
/// subtree.
pub open spec fn linked<K: Ord, D>(
    first: BinomialTree<K, D>,
    second: BinomialTree<K, D>,
    result: BinomialTree<K, D>,
) -> bool {
    if le(first.root.key, second.root.key) {
        result.root == first.root && result.childs@ == first.childs@.push(second)
    } else {
        result.root == second.root && result.childs@ == second.childs@.push(first)
    }
}

/// The entries of the tree in a slot; none for an empty slot.
pub open spec fn slot_contents<K, D>(slot: Option<BinomialTree<K, D>>) -> Multiset<HeapEntry<K, D>> {
    match slot {
        Some(tree) => tree.contents(),
        None => Multiset::empty(),
    }
}

/// The entries of the trees in all the slots, with multiplicity.
pub open spec fn slots_contents<K, D>(slots: Seq<Option<BinomialTree<K, D>>>) -> Multiset<
    HeapEntry<K, D>,
>
    decreases slots.len(),
{
    if slots.len() == 0 {
        Multiset::empty()
    } else {
        slots_contents(slots.drop_last()).add(slot_contents(slots.last()))
    }
}

/// Each occupied slot holds a min-ordered binomial tree whose rank is the slot's index.
pub open spec fn slots_wf<K: Ord, D>(slots: Seq<Option<BinomialTree<K, D>>>) -> bool {
    forall|i: int|
        0 <= i < slots.len() ==> ((#[trigger] slots[i]) matches Some(tree) ==> tree.is_binomial(
            i as nat,
        ))
}

/// Emptying one slot takes exactly the entries of its tree out of the whole.
pub proof fn lemma_slots_take<K, D>(slots: Seq<Option<BinomialTree<K, D>>>, i: int)
    requires
        0 <= i < slots.len(),
    ensures
        slots_contents(slots) == slots_contents(slots.update(i, None)).add(
            slot_contents(slots[i]),
        ),
    decreases slots.len(),
{
    let emptied = slots.update(i, None);
    assert(slots_contents(emptied) == slots_contents(emptied.drop_last()).add(
        slot_contents(emptied.last()),
    ));
    if i == slots.len() - 1 {
        assert(emptied.drop_last() =~= slots.drop_last());
    } else {
        lemma_slots_take(slots.drop_last(), i);
        assert(emptied.drop_last() =~= slots.drop_last().update(i, None));
    }
    assert(slots_contents(slots) =~= slots_contents(emptied).add(slot_contents(slots[i])));
}

/// Filling an empty slot adds exactly the entries of the new tree to the whole.
pub proof fn lemma_slots_fill<K, D>(
    slots: Seq<Option<BinomialTree<K, D>>>,
    i: int,
    slot: Option<BinomialTree<K, D>>,
)
    requires
        0 <= i < slots.len(),
        slots[i] is None,
    ensures
        slots_contents(slots.update(i, slot)) == slots_contents(slots).add(slot_contents(slot)),
    decreases slots.len(),
{
    let filled = slots.update(i, slot);
    assert(slots_contents(filled) == slots_contents(filled.drop_last()).add(
        slot_contents(filled.last()),
    ));
    if i == slots.len() - 1 {
        assert(filled.drop_last() =~= slots.drop_last());
    } else {
        lemma_slots_fill(slots.drop_last(), i, slot);
        assert(filled.drop_last() =~= slots.drop_last().update(i, slot));
    }
    assert(slots_contents(filled) =~= slots_contents(slots).add(slot_contents(slot)));
}

/// An entry among the slots is an entry of the tree in one of them.
pub proof fn lemma_slots_member<K, D>(slots: Seq<Option<BinomialTree<K, D>>>, x: HeapEntry<K, D>)
    requires
        slots_contents(slots).count(x) > 0,
    ensures
        exists|i: int|
            0 <= i < slots.len() && (#[trigger] slots[i]) is Some && slots[i].unwrap().contents().count(
                x,
            ) > 0,
    decreases slots.len(),
{
    if slots.len() > 0 {
        if slot_contents(slots.last()).count(x) > 0 {
            assert(slots[slots.len() - 1] is Some);
        } else {
            lemma_slots_member(slots.drop_last(), x);
            let i = choose|i: int|
                0 <= i < slots.drop_last().len() && (#[trigger] slots.drop_last()[i]) is Some
                    && slots.drop_last()[i].unwrap().contents().count(x) > 0;
            assert(slots[i] is Some);
        }
    }
}

/// An entry among the trees of a forest is an entry of one of them.
pub proof fn lemma_forest_member<K, D>(trees: Seq<BinomialTree<K, D>>, x: HeapEntry<K, D>)
    requires
        forest_contents(trees).count(x) > 0,
    ensures
        exists|i: int| 0 <= i < trees.len() && (#[trigger] trees[i]).contents().count(x) > 0,
    decreases trees.len(),
{
    if trees.len() > 0 {
        if trees.last().contents().count(x) > 0 {
            assert(trees[trees.len() - 1].contents().count(x) > 0);
        } else {
            lemma_forest_member(trees.drop_last(), x);
            let i = choose|i: int|
                0 <= i < trees.drop_last().len() && (#[trigger] trees.drop_last()[i]).contents().count(
                    x,
                ) > 0;
            assert(trees[i].contents().count(x) > 0);
        }
    }
}

/// No entry of a min-ordered binomial tree is before its root.
pub proof fn lemma_tree_root_least<K: Ord, D>(
    tree: BinomialTree<K, D>,
    rank: nat,
    x: HeapEntry<K, D>,
)
    requires
        total_order::<K>(),
        tree.is_binomial(rank),
        tree.contents().count(x) > 0,
    ensures
        le(tree.root.key, x.key),
    decreases tree,
{
    if forest_contents(tree.childs@).count(x) > 0 {
        lemma_forest_member(tree.childs@, x);
        let i = choose|i: int|
            0 <= i < tree.childs@.len() && (#[trigger] tree.childs@[i]).contents().count(x) > 0;
        lemma_tree_root_least(tree.childs@[i], i as nat, x);
        lemma_le_transitive(tree.root.key, tree.childs@[i].root.key, x.key);
    } else {
        assert(x == tree.root);
        lemma_le_reflexive(x.key);
    }
}

/// The trees of a forest, each in the slot of its position.
pub open spec fn as_slots<K, D>(trees: Seq<BinomialTree<K, D>>) -> Seq<Option<BinomialTree<K, D>>> {
    Seq::new(trees.len(), |i: int| Some(trees[i]))
}

/// Putting the trees of a forest into slots keeps their entries.
pub proof fn lemma_as_slots_contents<K, D>(trees: Seq<BinomialTree<K, D>>)
    ensures
        slots_contents(as_slots(trees)) == forest_contents(trees),
    decreases trees.len(),
{
    if trees.len() > 0 {
        lemma_as_slots_contents(trees.drop_last());
        assert(as_slots(trees).drop_last() =~= as_slots(trees.drop_last()));
        assert(as_slots(trees).last() == Some(trees.last()));
    }
}

/// Slots that are all empty hold no entry.
pub proof fn lemma_slots_empty<K, D>(slots: Seq<Option<BinomialTree<K, D>>>)
    requires
        forall|i: int| 0 <= i < slots.len() ==> slots[i] is None,
    ensures
        slots_contents(slots) == Multiset::<HeapEntry<K, D>>::empty(),
    decreases slots.len(),
{
    if slots.len() > 0 {
        lemma_slots_empty(slots.drop_last());
        assert(slots_contents(slots) =~= Multiset::<HeapEntry<K, D>>::empty());
    }
}

/// A binomial forest whose first `count` trees have the ranks of their positions
/// holds one entry less than the power of two of `count`.
pub proof fn lemma_forest_size<K: Ord, D>(trees: Seq<BinomialTree<K, D>>)
    requires
        forall|i: int| 0 <= i < trees.len() ==> (#[trigger] trees[i]).is_binomial(i as nat),
    ensures
        forest_contents(trees).len() + 1 == pow2(trees.len()),
    decreases trees,
{
    if trees.len() == 0 {
        lemma2_to64();
    } else {
        let front = trees.drop_last();
        assert forall|i: int| 0 <= i < front.len() implies (#[trigger] front[i]).is_binomial(
            i as nat,
        ) by {
            assert(trees[i].is_binomial(i as nat));
        }
        lemma_forest_size(front);
        lemma_tree_size(trees.last(), (trees.len() - 1) as nat);
        lemma_pow2_unfold(trees.len());
    }
}

/// A binomial tree of rank `rank` holds as many entries as the power of two of `rank`.
pub proof fn lemma_tree_size<K: Ord, D>(tree: BinomialTree<K, D>, rank: nat)
    requires
        tree.is_binomial(rank),
    ensures
        tree.contents().len() == pow2(rank),
    decreases tree,
{
    lemma_forest_size(tree.childs@);
}

/// The number that has a binary digit one exactly at the occupied slots.
pub open spec fn slots_weight<K, D>(slots: Seq<Option<BinomialTree<K, D>>>) -> nat
    decreases slots.len(),
{
    if slots.len() == 0 {
        0
    } else if slots.last() is Some {
        slots_weight(slots.drop_last()) + pow2((slots.len() - 1) as nat)
    } else {
        slots_weight(slots.drop_last())
    }
}

/// Well-formed slots hold as many entries as their weight.
pub proof fn lemma_slots_size<K: Ord, D>(slots: Seq<Option<BinomialTree<K, D>>>)
    requires
        slots_wf(slots),
    ensures
        slots_contents(slots).len() == slots_weight(slots),
    decreases slots.len(),
{
    if slots.len() > 0 {
        let front = slots.drop_last();
        assert forall|i: int| 0 <= i < front.len() implies ((#[trigger] front[i]) matches Some(
            tree,
        ) ==> tree.is_binomial(i as nat)) by {
            assert(front[i] == slots[i]);
        }
        lemma_slots_size(front);
        if let Some(tree) = slots.last() {
            assert(slots[slots.len() - 1] == Some(tree));
            lemma_tree_size(tree, (slots.len() - 1) as nat);
        }
    }
}

/// The weight has no digit at or above the number of slots, and below it a digit one
/// exactly where a slot is occupied.
pub proof fn lemma_weight_digits<K, D>(slots: Seq<Option<BinomialTree<K, D>>>)
    ensures
        slots_weight(slots) < pow2(slots.len()),
        forall|i: int| 0 <= i < slots.len() ==> ((#[trigger] slots[i]) is Some <==> bit(
            slots_weight(slots),
            i as nat,
        )),
    decreases slots.len(),
{
    if slots.len() == 0 {
        lemma_pow2_pos(0);
    } else {
        let front = slots.drop_last();
        let top = (slots.len() - 1) as nat;
        lemma_weight_digits(front);
        lemma_pow2_unfold(slots.len());
        lemma_bit_top(slots_weight(front), top);
        assert forall|i: int| 0 <= i < slots.len() implies ((#[trigger] slots[i]) is Some <==> bit(
            slots_weight(slots),
            i as nat,
        )) by {
            if i < top {
                assert(front[i] == slots[i]);
                lemma_bit_below(slots_weight(front), top, i as nat);
            }
        }
    }
}

/// The slot at `rank` holds the tree that an extraction takes: no root is before its
/// root, and the roots in the slots before it are strictly after its root.
pub open spec fn is_first_least<K: Ord, D>(
    slots: Seq<Option<BinomialTree<K, D>>>,
    rank: int,
) -> bool {
    &&& 0 <= rank < slots.len()
    &&& slots[rank] is Some
    &&& forall|j: int|
        0 <= j < slots.len() && (#[trigger] slots[j]) is Some ==> le(
            slots[rank].unwrap().root.key,
            slots[j].unwrap().root.key,
        )
    &&& forall|j: int|
        0 <= j < rank && (#[trigger] slots[j]) is Some ==> !le(
            slots[j].unwrap().root.key,
            slots[rank].unwrap().root.key,
        )
}

/// In well-formed slots the least root is a minimum of all the entries.
pub proof fn lemma_least_root_is_minimum<K: Ord, D>(
    slots: Seq<Option<BinomialTree<K, D>>>,
    rank: int,
)
    requires
        total_order::<K>(),
        slots_wf(slots),
        is_first_least(slots, rank),
    ensures
        is_minimum(slots_contents(slots), slots[rank].unwrap().root),
{
    let least = slots[rank].unwrap();
    lemma_slots_take(slots, rank);
    assert(least.contents().count(least.root) > 0);
    assert forall|x: HeapEntry<K, D>| slots_contents(slots).count(x) > 0 implies le(
        least.root.key,
        x.key,
    ) by {
        lemma_slots_member(slots, x);
        let j = choose|j: int|
            0 <= j < slots.len() && (#[trigger] slots[j]) is Some
                && slots[j].unwrap().contents().count(x) > 0;
        lemma_tree_root_least(slots[j].unwrap(), j as nat, x);
        lemma_le_transitive(least.root.key, slots[j].unwrap().root.key, x.key);
    }
}

/// `tree` holds just `entry`.
pub open spec fn is_leaf<K, D>(tree: BinomialTree<K, D>, entry: HeapEntry<K, D>) -> bool {
    tree.root == entry && tree.childs@.len() == 0
}

/// The slot of a rank, empty beyond the last slot.
pub open spec fn slot_at<K, D>(slots: Seq<Option<BinomialTree<K, D>>>, rank: int) -> Option<
    BinomialTree<K, D>,
> {
    if 0 <= rank < slots.len() {
        slots[rank]
    } else {
        None
    }
}

/// What merging does at one rank with the receiver's tree, the other heap's tree and
/// the tree carried from the rank below. Of two or three trees the first two, in
/// that order, are linked and carried on, and a third stays in the slot; a single
/// tree stays in the slot.
pub open spec fn merged_at<K: Ord, D>(
    mine: Option<BinomialTree<K, D>>,
    theirs: Option<BinomialTree<K, D>>,
    carry: Option<BinomialTree<K, D>>,
    slot: Option<BinomialTree<K, D>>,
    carry_out: Option<BinomialTree<K, D>>,
) -> bool {
    match (mine, theirs, carry) {
        (Some(first), Some(second), _) => slot == carry && carry_out is Some && linked(
            first,
            second,
            carry_out.unwrap(),
        ),
        (Some(first), None, Some(second)) => slot is None && carry_out is Some && linked(
            first,
            second,
            carry_out.unwrap(),
        ),
        (None, Some(first), Some(second)) => slot is None && carry_out is Some && linked(
            first,
            second,
            carry_out.unwrap(),
        ),
        (Some(_), None, None) => slot == mine && carry_out is None,
        (None, Some(_), None) => slot == theirs && carry_out is None,
        (None, None, _) => slot == carry && carry_out is None,
    }
}

/// `result` comes from `mine` and `theirs` by the per-rank rule, with `carries[r]` the
/// tree carried into rank `r`: nothing is carried into the first rank or out of the
/// last.
pub open spec fn carried<K: Ord, D>(
    mine: Seq<Option<BinomialTree<K, D>>>,
    theirs: Seq<Option<BinomialTree<K, D>>>,
    result: Seq<Option<BinomialTree<K, D>>>,
    carries: Seq<Option<BinomialTree<K, D>>>,
) -> bool {
    &&& carries.len() == result.len() + 1
    &&& carries[0] is None
    &&& carries[result.len() as int] is None
    &&& forall|r: int|
        0 <= r < result.len() ==> merged_at(
            slot_at(mine, r),
            slot_at(theirs, r),
            carries[r],
            #[trigger] result[r],
            carries[r + 1],
        )
}

/// `result` is `theirs` merged into `mine`, which has at least as many slots: the
/// addition of two binary numbers, digit by digit with carry, on trees.
pub open spec fn merged<K: Ord, D>(
    mine: Seq<Option<BinomialTree<K, D>>>,
    theirs: Seq<Option<BinomialTree<K, D>>>,
    result: Seq<Option<BinomialTree<K, D>>>,
) -> bool {
    &&& theirs.len() <= mine.len() <= result.len() <= mine.len() + 1
    &&& result.len() == mine.len() + 1 ==> result[mine.len() as int] is Some
    &&& exists|carries: Seq<Option<BinomialTree<K, D>>>| carried(mine, theirs, result, carries)
}

/// A binomial heap: a sequence of slots, one for each rank, each empty or
/// holding a binomial tree of that rank.
#[derive(Debug)]
pub struct BinomialHeap<K, D> {
    pub ranks: Vec<Option<BinomialTree<K, D>>>,
}

impl<K: Ord, D> BinomialHeap<K, D> {
    /// The occupied slots are the binary digits of the number of stored entries: the
    /// slot of a rank is occupied exactly if the digit at that position is one, and
    /// the number has no digit beyond the slots.
    pub open spec fn occupancy_is_binary(self) -> bool {
        &&& self.contents().len() < pow2(self.ranks@.len())
        &&& forall|i: int|
            0 <= i < self.ranks@.len() ==> ((#[trigger] self.ranks@[i]) is Some <==> bit(
                self.contents().len(),
                i as nat,
            ))
    }

    /// In every well-formed heap the occupied slots are the binary digits of the
    /// number of stored entries.
    pub proof fn lemma_occupancy_is_binary(self)
        requires
            self.wf(),
        ensures
            self.occupancy_is_binary(),
    {
        lemma_slots_size(self.ranks@);
        lemma_weight_digits(self.ranks@);
    }

    /// An empty heap.
    pub fn new() -> (heap: BinomialHeap<K, D>)
        ensures
            heap.ranks@.len() == 0,
            heap.wf(),
            heap.contents() == Multiset::<HeapEntry<K, D>>::empty(),
    {
        BinomialHeap { ranks: Vec::new() }
    }

    /// Moves all the entries of `other` into the receiver, rank by rank from the
    /// smallest, linking two trees of one rank into a tree that is carried to the next.
    /// The heap with more slots takes the receiver's part.
    pub fn merge(&mut self, other: Self)
        requires
            total_order::<K>(),
            old(self).wf(),
            other.wf(),
        ensures
            final(self).wf(),
            final(self).contents() == old(self).contents().add(other.contents()),
            final(self).contents().len() == old(self).contents().len() + other.contents().len(),
            final(self).occupancy_is_binary(),
            if other.ranks@.len() > old(self).ranks@.len() {
                merged(other.ranks@, old(self).ranks@, final(self).ranks@)
            } else {
                merged(old(self).ranks@, other.ranks@, final(self).ranks@)
            },
    {
        let mut rest = other;
        if rest.ranks.len() > self.ranks.len() {
            core::mem::swap(self, &mut rest);
        }
        let ghost total = old(self).contents().add(other.contents());
        assert(slots_contents(self.ranks@).add(slots_contents(rest.ranks@)) =~= total);
        let ghost mine = self.ranks@;
        let ghost theirs = rest.ranks@;
        let ghost mut carries: Seq<Option<BinomialTree<K, D>>> = seq![None];
        let mut carry_tree: Option<BinomialTree<K, D>> = None;
        let other_rank: usize = rest.ranks.len();
        let mut rank: usize = 0;
        while rank < other_rank
            invariant
                total_order::<K>(),
                rank <= other_rank,
                other_rank == theirs.len(),
                other_rank <= mine.len(),
                self.ranks@.len() == mine.len(),
                rest.ranks@.len() == theirs.len(),
                slots_wf(self.ranks@),
                slots_wf(rest.ranks@),
                carry_tree matches Some(tree) ==> tree.is_binomial(rank as nat),
                forall|i: int| 0 <= i < rank ==> rest.ranks@[i] is None,
                slots_contents(self.ranks@).add(slots_contents(rest.ranks@)).add(
                    slot_contents(carry_tree),
                ) == total,
                carries.len() == rank + 1,
                carries[0] is None,
                carries[rank as int] == carry_tree,
                forall|r: int|
                    0 <= r < rank ==> merged_at(
                        mine[r],
                        theirs[r],
                        carries[r],
                        #[trigger] self.ranks@[r],
                        carries[r + 1],
                    ),
                forall|r: int| rank <= r < mine.len() ==> self.ranks@[r] == mine[r],
                forall|r: int| rank <= r < theirs.len() ==> rest.ranks@[r] == theirs[r],
            decreases other_rank - rank,
        {
            let ghost before = self.ranks@;
            let ghost before_rest = rest.ranks@;
            let ghost carries_before = carries;
            let this_tree = self.ranks[rank].take();
            let other_tree = rest.ranks[rank].take();
            let carry = carry_tree.take();
            let ghost emptied = self.ranks@;
            proof {
                lemma_slots_take(before, rank as int);
                lemma_slots_take(before_rest, rank as int);
                assert(emptied == before.update(rank as int, None));
                assert(rest.ranks@ == before_rest.update(rank as int, None));
            }
            match (this_tree, other_tree, carry) {
                (Some(mut first_tree), Some(second_tree), third) => {
                    first_tree.merge(second_tree);
                    carry_tree = Some(first_tree);
                    self.ranks[rank] = third;
                    proof {
                        lemma_slots_fill(emptied, rank as int, third);
                    }
                },
                (Some(mut first_tree), None, Some(second_tree)) => {
                    first_tree.merge(second_tree);
                    carry_tree = Some(first_tree);
                },
                (None, Some(mut first_tree), Some(second_tree)) => {
                    first_tree.merge(second_tree);
                    carry_tree = Some(first_tree);
                },
                (Some(first_tree), None, None) => {
                    self.ranks[rank] = Some(first_tree);
                    proof {
                        lemma_slots_fill(emptied, rank as int, Some(first_tree));
                    }
                },
                (None, Some(first_tree), None) => {
                    self.ranks[rank] = Some(first_tree);
                    proof {
                        lemma_slots_fill(emptied, rank as int, Some(first_tree));
                    }
                },
                (None, None, Some(first_tree)) => {
                    self.ranks[rank] = Some(first_tree);
                    proof {
                        lemma_slots_fill(emptied, rank as int, Some(first_tree));
                    }
                },
                (None, None, None) => {},
            }
            proof {
                assert(slots_contents(self.ranks@).add(slots_contents(rest.ranks@)).add(
                    slot_contents(carry_tree),
                ) =~= total);
                carries = carries_before.push(carry_tree);
                assert(merged_at(
                    mine[rank as int],
                    theirs[rank as int],
                    carries[rank as int],
                    self.ranks@[rank as int],
                    carries[rank + 1],
                ));
                assert forall|r: int| 0 <= r < rank + 1 implies merged_at(
                    mine[r],
                    theirs[r],
                    carries[r],
                    #[trigger] self.ranks@[r],
                    carries[r + 1],
                ) by {
                    if r < rank {
                        assert(self.ranks@[r] == before[r]);
                        assert(carries[r] == carries_before[r]);
                        assert(carries[r + 1] == carries_before[r + 1]);
                    }
                }
            }
            rank += 1;
        }
        proof {
            lemma_slots_empty(rest.ranks@);
            assert(slots_contents(self.ranks@).add(slot_contents(carry_tree)) =~= total);
        }
        let mut next_rank: usize = other_rank;
        loop
            invariant_except_break
                total_order::<K>(),
                theirs.len() <= next_rank <= self.ranks@.len(),
                theirs.len() <= mine.len(),
                self.ranks@.len() == mine.len() || (self.ranks@.len() == mine.len() + 1
                    && next_rank == self.ranks@.len() && carry_tree is None
                    && self.ranks@[mine.len() as int] is Some),
                slots_wf(self.ranks@),
                carry_tree matches Some(tree) ==> tree.is_binomial(next_rank as nat),
                slots_contents(self.ranks@).add(slot_contents(carry_tree)) == total,
                carries.len() == next_rank + 1,
                carries[0] is None,
                carries[next_rank as int] == carry_tree,
                forall|r: int|
                    0 <= r < next_rank ==> merged_at(
                        slot_at(mine, r),
                        slot_at(theirs, r),
                        carries[r],
                        #[trigger] self.ranks@[r],
                        carries[r + 1],
                    ),
                forall|r: int| next_rank <= r < self.ranks@.len() ==> self.ranks@[r] == mine[r],
            ensures
                slots_wf(self.ranks@),
                slots_contents(self.ranks@) == total,
                merged(mine, theirs, self.ranks@),
            decreases
                    (if carry_tree is Some {
                        self.ranks@.len() - next_rank + 1
                    } else {
                        0
                    }),
        {
            let ghost before = self.ranks@;
            let ghost carries_before = carries;
            match carry_tree.take() {
                None => {
                    proof {
                        assert(slots_contents(self.ranks@) =~= total);
                        let result = self.ranks@;
                        carries = Seq::new(
                            (result.len() + 1) as nat,
                            |r: int|
                                if r <= next_rank {
                                    carries_before[r]
                                } else {
                                    None
                                },
                        );
                        assert forall|r: int| 0 <= r < result.len() implies merged_at(
                            slot_at(mine, r),
                            slot_at(theirs, r),
                            carries[r],
                            #[trigger] result[r],
                            carries[r + 1],
                        ) by {
                            if r >= next_rank {
                                assert(result[r] == mine[r]);
                            }
                        }
                        assert(carried(mine, theirs, result, carries));
                    }
                    break ;
                },
                Some(carry) => {
                    if next_rank < self.ranks.len() {
                        match self.ranks[next_rank].take() {
                            Some(mut this_tree) => {
                                proof {
                                    lemma_slots_take(before, next_rank as int);
                                    assert(self.ranks@ == before.update(next_rank as int, None));
                                }
                                this_tree.merge(carry);
                                carry_tree = Some(this_tree);
                            },
                            None => {
                                proof {
                                    assert(self.ranks@ =~= before);
                                }
                                self.ranks[next_rank] = Some(carry);
                                proof {
                                    lemma_slots_fill(before, next_rank as int, Some(carry));
                                    assert(self.ranks@ == before.update(
                                        next_rank as int,
                                        Some(carry),
                                    ));
                                }
                            },
                        }
                    } else {
                        self.ranks.push(Some(carry));
                        proof {
                            assert(self.ranks@.drop_last() =~= before);
                            assert(self.ranks.len() == before.len() + 1);
                        }
                    }
                    proof {
                        assert(slots_contents(self.ranks@).add(slot_contents(carry_tree)) =~= total);
                        carries = carries_before.push(carry_tree);
                        assert(merged_at(
                            slot_at(mine, next_rank as int),
                            slot_at(theirs, next_rank as int),
                            carries[next_rank as int],
                            self.ranks@[next_rank as int],
                            carries[next_rank + 1],
                        ));
                        assert forall|r: int| 0 <= r < next_rank + 1 implies merged_at(
                            slot_at(mine, r),
                            slot_at(theirs, r),
                            carries[r],
                            #[trigger] self.ranks@[r],
                            carries[r + 1],
                        ) by {
                            if r < next_rank {
                                assert(self.ranks@[r] == before[r]);
                                assert(carries[r] == carries_before[r]);
                                assert(carries[r + 1] == carries_before[r + 1]);
                            }
                        }
                    }
                    next_rank += 1;
                },
            }
        }
        proof {
            self.lemma_occupancy_is_binary();
        }
    }

    /// The trees of `childs`, in the same order, each wrapped as an occupied slot.
    fn into_slots(childs: Vec<BinomialTree<K, D>>) -> (slots: Vec<Option<BinomialTree<K, D>>>)
        ensures
            slots@ == as_slots(childs@),
    {
        let mut trees = childs;
        let count: usize = trees.len();
        let mut slots: Vec<Option<BinomialTree<K, D>>> = Vec::new();
        while slots.len() < count
            invariant
                slots@.len() <= count,
            decreases count - slots@.len(),
        {
            slots.push(None);
        }
        let mut k: usize = count;
        while k > 0
            invariant
                k <= count,
                count == childs@.len(),
                slots@.len() == count,
                trees@ == childs@.take(k as int),
                forall|i: int| k <= i < count ==> slots@[i] == Some(childs@[i]),
            decreases k,
        {
            k -= 1;
            match trees.pop() {
                Some(child) => {
                    slots[k] = Some(child);
                },
                None => {},
            }
            proof {
                assert(trees@ =~= childs@.take(k as int));
            }
        }
        proof {
            assert(slots@ =~= as_slots(childs@));
        }
        slots
    }
}

impl<K: Ord, D> Heap<K, D> for BinomialHeap<K, D> {
    type EntryRef = ();

    open spec fn wf(&self) -> bool {
        slots_wf(self.ranks@)
    }

    open spec fn contents(&self) -> Multiset<HeapEntry<K, D>> {
        slots_contents(self.ranks@)
    }

    /// Merges a heap that holds just `entry` into the receiver.
    fn insert(&mut self, entry: HeapEntry<K, D>)
        ensures
            final(self).occupancy_is_binary(),
            exists|leaf: BinomialTree<K, D>|
                #[trigger] is_leaf(leaf, entry) && if old(self).ranks@.len() == 0 {
                    merged(seq![Some(leaf)], old(self).ranks@, final(self).ranks@)
                } else {
                    merged(old(self).ranks@, seq![Some(leaf)], final(self).ranks@)
                },
    {
        let new_heap = BinomialHeap {
            ranks: vec![Some(BinomialTree { root: entry, childs: Vec::new() })],
        };
        proof {
            let tree = new_heap.ranks@[0].unwrap();
            assert(is_leaf(tree, entry));
            assert(new_heap.ranks@ =~= seq![Some(tree)]);
            assert(tree.is_binomial(0));
            assert(tree.contents() =~= Multiset::empty().insert(entry));
            assert(new_heap.ranks@.drop_last() =~= Seq::empty());
            assert(slots_contents(new_heap.ranks@.drop_last()) == Multiset::<
                HeapEntry<K, D>,
            >::empty());
            assert(slots_contents(new_heap.ranks@) =~= Multiset::empty().insert(entry));
            assert(old(self).contents().add(new_heap.contents()) =~= old(self).contents().insert(
                entry,
            ));
        }
        self.merge(new_heap);
    }

    /// Takes out the tree with the least root, the first such on ties, returns that
    /// root and merges the tree's subtrees back in.
    fn delete_min(&mut self) -> (result: Option<HeapEntry<K, D>>)
        ensures
            result is None <==> forall|i: int|
                0 <= i < old(self).ranks@.len() ==> old(self).ranks@[i] is None,
            result is None ==> final(self).ranks@ == old(self).ranks@,
            result is Some ==> exists|rank: int|
                #![trigger old(self).ranks@[rank]]
                {
                    &&& is_first_least(old(self).ranks@, rank)
                    &&& result == Some(old(self).ranks@[rank].unwrap().root)
                    &&& merged(
                        old(self).ranks@.update(rank, None),
                        as_slots(old(self).ranks@[rank].unwrap().childs@),
                        final(self).ranks@,
                    )
                },
            final(self).occupancy_is_binary(),
    {
        let mut min_rank: Option<usize> = None;
        let mut i: usize = 0;
        while i < self.ranks.len()
            invariant
                total_order::<K>(),
                i <= self.ranks@.len(),
                self.ranks@ == old(self).ranks@,
                match min_rank {
                    None => forall|j: int| 0 <= j < i ==> self.ranks@[j] is None,
                    Some(m) => is_first_least(self.ranks@.take(i as int), m as int),
                },
            decreases self.ranks@.len() - i,
        {
            let ghost seen = self.ranks@.take(i as int);
            let ghost next = self.ranks@.take(i + 1);
            let ghost previous = min_rank;
            match &self.ranks[i] {
                Some(tree) => {
                    let better = match min_rank {
                        None => true,
                        Some(m) => key_lt(
                            &tree.root.key,
                            &self.ranks[m].as_ref().unwrap().root.key,
                        ),
                    };
                    if better {
                        min_rank = Some(i);
                    }
                    proof {
                        lemma_le_reflexive(tree.root.key);
                        match previous {
                            Some(m) => {
                                let least = seen[m as int].unwrap().root.key;
                                lemma_le_total(least, tree.root.key);
                                assert forall|j: int|
                                    0 <= j < i && (#[trigger] next[j]) is Some implies le(
                                    least,
                                    next[j].unwrap().root.key,
                                ) && (better ==> le(tree.root.key, next[j].unwrap().root.key)
                                    && !le(next[j].unwrap().root.key, tree.root.key)) by {
                                    assert(seen[j] is Some);
                                    if better {
                                        lemma_le_transitive(
                                            tree.root.key,
                                            least,
                                            next[j].unwrap().root.key,
                                        );
                                        if le(next[j].unwrap().root.key, tree.root.key) {
                                            lemma_le_transitive(
                                                least,
                                                next[j].unwrap().root.key,
                                                tree.root.key,
                                            );
                                        }
                                    }
                                }
                                if !better {
                                    assert forall|j: int| 0 <= j < m && (#[trigger] next[j])
                                        is Some implies !le(next[j].unwrap().root.key, least) by {
                                        assert(seen[j] is Some);
                                    }
                                }
                            },
                            None => {
                                assert forall|j: int| 0 <= j < i implies (#[trigger] next[j])
                                    is None by {
                                    assert(self.ranks@[j] is None);
                                }
                            },
                        }
                    }
                },
                None => {
                    proof {
                        if let Some(m) = previous {
                            assert forall|j: int|
                                0 <= j < next.len() && (#[trigger] next[j]) is Some implies le(
                                next[m as int].unwrap().root.key,
                                next[j].unwrap().root.key,
                            ) by {
                                assert(seen[j] is Some);
                            }
                            assert forall|j: int| 0 <= j < m && (#[trigger] next[j])
                                is Some implies !le(
                                next[j].unwrap().root.key,
                                next[m as int].unwrap().root.key,
                            ) by {
                                assert(seen[j] is Some);
                            }
                        }
                    }
                },
            }
            i += 1;
        }
        proof {
            assert(self.ranks@.take(i as int) =~= self.ranks@);
        }
        match min_rank {
            Some(m) => {
                let ghost before = self.ranks@;
                let ghost least = before[m as int].unwrap();
                let tree = self.ranks[m].take().unwrap();
                let BinomialTree { root, childs } = tree;
                let tmp_heap = BinomialHeap { ranks: Self::into_slots(childs) };
                proof {
                    lemma_least_root_is_minimum(before, m as int);
                    lemma_slots_take(before, m as int);
                    lemma_as_slots_contents(childs@);
                    assert(least.is_binomial(m as nat));
                    assert(slots_wf(tmp_heap.ranks@));
                    assert(self.contents().add(tmp_heap.contents()) =~= slots_contents(
                        before,
                    ).remove(root));
                }
                self.merge(tmp_heap);
                Some(root)
            },
            None => {
                proof {
                    lemma_slots_empty(self.ranks@);
                    self.lemma_occupancy_is_binary();
                }
                None
            },
        }
    }
}

} // verus!
