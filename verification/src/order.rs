use crate::entry::HeapEntry;
use vstd::multiset::Multiset;
use vstd::prelude::*;
use vstd::std_specs::cmp::PartialOrdIs;

verus! {

/// The comparison operators of `K` compute a total order.
pub open spec fn total_order<K: Ord>() -> bool {
    vstd::laws_cmp::obeys_cmp::<K>()
}

/// `a` is ordered before `b` or ranks equal to it.
pub open spec fn le<K: Ord>(a: K, b: K) -> bool {
    a.is_le(&b)
}

/// No key is strictly before itself.
pub proof fn lemma_le_reflexive<K: Ord>(a: K)
    requires
        total_order::<K>(),
    ensures
        le(a, a),
{
    reveal(vstd::laws_cmp::obeys_partial_cmp_spec_properties);
    reveal(vstd::laws_cmp::obeys_cmp_partial_ord);
    reveal(vstd::laws_cmp::obeys_cmp_ord);
    reveal(vstd::laws_eq::obeys_eq_spec_properties);
}

/// Of two keys one is not after the other.
pub proof fn lemma_le_total<K: Ord>(a: K, b: K)
    requires
        total_order::<K>(),
    ensures
        le(a, b) || le(b, a),
{
    reveal(vstd::laws_cmp::obeys_partial_cmp_spec_properties);
    reveal(vstd::laws_cmp::obeys_cmp_partial_ord);
    reveal(vstd::laws_cmp::obeys_cmp_ord);
    reveal(vstd::laws_eq::obeys_eq_spec_properties);
}

/// A key that is not after a second, which is not after a third, is not after the third.
pub proof fn lemma_le_transitive<K: Ord>(a: K, b: K, c: K)
    requires
        total_order::<K>(),
        le(a, b),
        le(b, c),
    ensures
        le(a, c),
{
    reveal(vstd::laws_cmp::obeys_partial_cmp_spec_properties);
    reveal(vstd::laws_cmp::obeys_cmp_partial_ord);
    reveal(vstd::laws_cmp::obeys_cmp_ord);
    reveal(vstd::laws_eq::obeys_eq_spec_properties);
}

/// Whether `a` is strictly before `b`: the operator `<` of `K`.
pub fn key_lt<K: Ord>(a: &K, b: &K) -> (r: bool)
    requires
        total_order::<K>(),
    ensures
        r == !le(*b, *a),
{
    proof {
        reveal(vstd::laws_cmp::obeys_partial_cmp_spec_properties);
        reveal(vstd::laws_cmp::obeys_cmp_partial_ord);
        reveal(vstd::laws_cmp::obeys_cmp_ord);
        reveal(vstd::laws_eq::obeys_eq_spec_properties);
    }
    *a < *b
}

/// `e` is stored in `m` and no entry of `m` has a key strictly before the key of `e`.
pub open spec fn is_minimum<K: Ord, D>(m: Multiset<HeapEntry<K, D>>, e: HeapEntry<K, D>) -> bool {
    &&& m.count(e) > 0
    &&& forall|x: HeapEntry<K, D>| m.count(x) > 0 ==> le(e.key, x.key)
}

/// What one extraction of the minimum does to the stored entries: it yields nothing
/// exactly when nothing is stored and then changes nothing; otherwise it yields a
/// minimum entry and removes one occurrence of it.
pub open spec fn extraction<K: Ord, D>(
    before: Multiset<HeapEntry<K, D>>,
    result: Option<HeapEntry<K, D>>,
    after: Multiset<HeapEntry<K, D>>,
) -> bool {
    match result {
        None => before.len() == 0 && after == before,
        Some(e) => is_minimum(before, e) && after == before.remove(e),
    }
}

} // verus!
