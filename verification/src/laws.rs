use crate::entry::HeapEntry;
use crate::order::{
    extraction, is_minimum, le, lemma_le_reflexive, lemma_le_total, lemma_le_transitive,
    total_order,
};
use vstd::multiset::Multiset;
use vstd::prelude::*;
use vstd::seq_lib::to_multiset_build;

verus! {

/// The entries stored after those of `entries` have been inserted, one after the
/// other, into an empty queue.
pub open spec fn inserted<K, D>(entries: Seq<HeapEntry<K, D>>) -> Multiset<HeapEntry<K, D>>
    decreases entries.len(),
{
    if entries.len() == 0 {
        Multiset::empty()
    } else {
        inserted(entries.drop_last()).insert(entries.last())
    }
}

/// Inserting stores every entry once for each time it was given, in whatever order.
pub proof fn lemma_inserted_is_multiset<K, D>(entries: Seq<HeapEntry<K, D>>)
    ensures
        inserted(entries) == entries.to_multiset(),
        inserted(entries).len() == entries.len(),
    decreases entries.len(),
{
    entries.to_multiset_ensures();
    if entries.len() == 0 {
        assert(inserted(entries) =~= entries.to_multiset());
    } else {
        lemma_inserted_is_multiset(entries.drop_last());
        to_multiset_build(entries.drop_last(), entries.last());
        assert(entries.drop_last().push(entries.last()) =~= entries);
    }
}

/// The stored entries do not depend on the order in which they were inserted.
pub proof fn lemma_insertion_order_is_irrelevant<K, D>(
    first: Seq<HeapEntry<K, D>>,
    second: Seq<HeapEntry<K, D>>,
)
    requires
        first.to_multiset() == second.to_multiset(),
    ensures
        inserted(first) == inserted(second),
{
    lemma_inserted_is_multiset(first);
    lemma_inserted_is_multiset(second);
}

/// Successive extractions: `results[i]` is what the extraction from the stored
/// entries `states[i]` yields, and `states[i + 1]` is what stays stored after it.
pub open spec fn extraction_run<K: Ord, D>(
    states: Seq<Multiset<HeapEntry<K, D>>>,
    results: Seq<Option<HeapEntry<K, D>>>,
) -> bool {
    &&& states.len() == results.len() + 1
    &&& forall|i: int|
        0 <= i < results.len() ==> extraction(states[i], #[trigger] results[i], states[i + 1])
}

/// Taking one stored entry out leaves one entry less.
pub proof fn lemma_remove_len<V>(m: Multiset<V>, v: V)
    requires
        m.count(v) > 0,
    ensures
        m.remove(v).len() + 1 == m.len(),
{
    assert(m.remove(v).insert(v) =~= m);
}

/// A multiset that holds no entry more often than another has at most its size.
pub proof fn lemma_subset_len<V>(a: Multiset<V>, b: Multiset<V>)
    requires
        a.subset_of(b),
    ensures
        a.len() <= b.len(),
{
    assert(a.add(b.sub(a)) =~= b);
}

/// After `i` extractions there are `i` entries less, or none once all are out.
pub proof fn lemma_run_state_size<K: Ord, D>(
    states: Seq<Multiset<HeapEntry<K, D>>>,
    results: Seq<Option<HeapEntry<K, D>>>,
    i: int,
)
    requires
        extraction_run(states, results),
        0 <= i <= results.len(),
    ensures
        i <= states[0].len() ==> states[i].len() == states[0].len() - i,
        i > states[0].len() ==> states[i].len() == 0,
    decreases i,
{
    if i > 0 {
        lemma_run_state_size(states, results, i - 1);
        assert(extraction(states[i - 1], results[i - 1], states[i]));
        if let Some(e) = results[i - 1] {
            lemma_remove_len(states[i - 1], e);
        }
    }
}

/// An extraction succeeds exactly as long as fewer entries have been taken out than
/// were stored at the start.
pub proof fn lemma_run_succeeds_while_stored<K: Ord, D>(
    states: Seq<Multiset<HeapEntry<K, D>>>,
    results: Seq<Option<HeapEntry<K, D>>>,
    i: int,
)
    requires
        extraction_run(states, results),
        0 <= i < results.len(),
    ensures
        results[i] is Some <==> i < states[0].len(),
{
    lemma_run_state_size(states, results, i);
    assert(extraction(states[i], results[i], states[i + 1]));
}

/// Size conservation: after the entries of `entries` have been inserted into an empty
/// queue, as many extractions as there are entries succeed, the next one yields
/// nothing, and nothing is stored then.
pub proof fn lemma_size_conservation<K: Ord, D>(
    entries: Seq<HeapEntry<K, D>>,
    states: Seq<Multiset<HeapEntry<K, D>>>,
    results: Seq<Option<HeapEntry<K, D>>>,
)
    requires
        extraction_run(states, results),
        states[0] == inserted(entries),
        results.len() == entries.len() + 1,
    ensures
        forall|i: int| 0 <= i < entries.len() ==> (#[trigger] results[i]) is Some,
        results[entries.len() as int] is None,
        states[entries.len() as int].len() == 0,
{
    lemma_inserted_is_multiset(entries);
    assert forall|i: int| 0 <= i < entries.len() implies (#[trigger] results[i]) is Some by {
        lemma_run_succeeds_while_stored(states, results, i);
    }
    lemma_run_succeeds_while_stored(states, results, entries.len() as int);
    lemma_run_state_size(states, results, entries.len() as int);
}

/// Extractions only take entries out: what is stored later was stored before.
pub proof fn lemma_run_shrinks<K: Ord, D>(
    states: Seq<Multiset<HeapEntry<K, D>>>,
    results: Seq<Option<HeapEntry<K, D>>>,
    i: int,
    j: int,
    x: HeapEntry<K, D>,
)
    requires
        extraction_run(states, results),
        0 <= i <= j <= results.len(),
    ensures
        states[j].count(x) <= states[i].count(x),
    decreases j - i,
{
    if i < j {
        lemma_run_shrinks(states, results, i, j - 1, x);
        assert(extraction(states[j - 1], results[j - 1], states[j]));
    }
}

/// Sorted extraction: what is extracted later is not before what was extracted
/// earlier, and nothing is extracted after an extraction that yielded nothing.
pub proof fn lemma_sorted_extraction<K: Ord, D>(
    states: Seq<Multiset<HeapEntry<K, D>>>,
    results: Seq<Option<HeapEntry<K, D>>>,
    i: int,
    j: int,
)
    requires
        total_order::<K>(),
        extraction_run(states, results),
        0 <= i <= j < results.len(),
        results[j] is Some,
    ensures
        results[i] is Some,
        le(results[i].unwrap().key, results[j].unwrap().key),
{
    let later = results[j].unwrap();
    assert(extraction(states[j], results[j], states[j + 1]));
    assert(extraction(states[i], results[i], states[i + 1]));
    lemma_run_shrinks(states, results, i, j, later);
    assert(states[i].count(later) > 0);
    assert(states[i].count(later) <= states[i].len());
}

/// The stored entries whose key is strictly before `key`.
pub open spec fn strictly_before<K: Ord, D>(m: Multiset<HeapEntry<K, D>>, key: K) -> Multiset<
    HeapEntry<K, D>,
> {
    m.filter(|e: HeapEntry<K, D>| !le(key, e.key))
}

/// The stored entries whose key is not after `key`.
pub open spec fn not_after<K: Ord, D>(m: Multiset<HeapEntry<K, D>>, key: K) -> Multiset<
    HeapEntry<K, D>,
> {
    m.filter(|e: HeapEntry<K, D>| le(e.key, key))
}

/// An entry whose key is strictly after the key extracted at step `i` is still stored,
/// as often as at the start, after that step.
proof fn lemma_later_keys_stay<K: Ord, D>(
    states: Seq<Multiset<HeapEntry<K, D>>>,
    results: Seq<Option<HeapEntry<K, D>>>,
    i: int,
    j: int,
    x: HeapEntry<K, D>,
)
    requires
        total_order::<K>(),
        extraction_run(states, results),
        0 <= j <= i + 1 <= results.len(),
        results[i] is Some,
        !le(x.key, results[i].unwrap().key),
    ensures
        states[j].count(x) == states[0].count(x),
    decreases j,
{
    if j > 0 {
        lemma_later_keys_stay(states, results, i, j - 1, x);
        lemma_sorted_extraction(states, results, j - 1, i);
        assert(extraction(states[j - 1], results[j - 1], states[j]));
        assert(results[j - 1].unwrap() != x);
    }
}

/// The key extracted at step `i` has the rank `i` among the keys stored at the start:
/// at most `i` stored entries are strictly before it and more than `i` are not after it.
pub proof fn lemma_extracted_rank<K: Ord, D>(
    states: Seq<Multiset<HeapEntry<K, D>>>,
    results: Seq<Option<HeapEntry<K, D>>>,
    i: int,
)
    requires
        total_order::<K>(),
        extraction_run(states, results),
        0 <= i < results.len(),
        results[i] is Some,
    ensures
        strictly_before(states[0], results[i].unwrap().key).len() <= i,
        not_after(states[0], results[i].unwrap().key).len() > i,
{
    let start = states[0];
    let e = results[i].unwrap();
    lemma_run_succeeds_while_stored(states, results, i);
    lemma_run_state_size(states, results, i);
    lemma_run_state_size(states, results, i + 1);
    assert(extraction(states[i], results[i], states[i + 1]));
    let taken = start.sub(states[i]);
    let taken_next = start.sub(states[i + 1]);
    assert(states[i].subset_of(start)) by {
        assert forall|x: HeapEntry<K, D>| states[i].count(x) <= start.count(x) by {
            lemma_run_shrinks(states, results, 0, i, x);
        }
    }
    assert(states[i + 1].subset_of(start)) by {
        assert forall|x: HeapEntry<K, D>| states[i + 1].count(x) <= start.count(x) by {
            lemma_run_shrinks(states, results, 0, i + 1, x);
        }
    }
    assert(taken.len() == i);
    assert(taken_next.len() == i + 1);
    assert(strictly_before(start, e.key).subset_of(taken)) by {
        assert forall|x: HeapEntry<K, D>|
            strictly_before(start, e.key).count(x) <= taken.count(x) by {
            lemma_run_shrinks(states, results, 0, i, x);
            if !le(e.key, x.key) {
                assert(states[i].count(x) == 0);
            }
        }
    }
    lemma_subset_len(strictly_before(start, e.key), taken);
    assert(taken_next.subset_of(not_after(start, e.key))) by {
        assert forall|x: HeapEntry<K, D>| taken_next.count(x) <= not_after(start, e.key).count(
            x,
        ) by {
            lemma_run_shrinks(states, results, 0, i + 1, x);
            if !le(x.key, e.key) {
                lemma_later_keys_stay(states, results, i, i + 1, x);
            }
        }
    }
    lemma_subset_len(taken_next, not_after(start, e.key));
}

/// Agreement: two queues that start with the same stored entries yield, at every
/// step, both nothing or entries whose keys rank equal, whichever entries they pick
/// among those of equal key.
pub proof fn lemma_runs_agree<K: Ord, D>(
    first_states: Seq<Multiset<HeapEntry<K, D>>>,
    first_results: Seq<Option<HeapEntry<K, D>>>,
    second_states: Seq<Multiset<HeapEntry<K, D>>>,
    second_results: Seq<Option<HeapEntry<K, D>>>,
    i: int,
)
    requires
        total_order::<K>(),
        extraction_run(first_states, first_results),
        extraction_run(second_states, second_results),
        first_states[0] == second_states[0],
        0 <= i < first_results.len(),
        i < second_results.len(),
    ensures
        first_results[i] is Some <==> second_results[i] is Some,
        first_results[i] is Some ==> le(
            first_results[i].unwrap().key,
            second_results[i].unwrap().key,
        ) && le(second_results[i].unwrap().key, first_results[i].unwrap().key),
{
    lemma_run_succeeds_while_stored(first_states, first_results, i);
    lemma_run_succeeds_while_stored(second_states, second_results, i);
    if first_results[i] is Some {
        let a = first_results[i].unwrap().key;
        let b = second_results[i].unwrap().key;
        lemma_extracted_rank(first_states, first_results, i);
        lemma_extracted_rank(second_states, second_results, i);
        lemma_rank_orders(first_states[0], a, b, i);
        lemma_rank_orders(first_states[0], b, a, i);
    }
}

/// Of two keys of the same rank among the stored entries, neither is strictly before
/// the other.
proof fn lemma_rank_orders<K: Ord, D>(m: Multiset<HeapEntry<K, D>>, a: K, b: K, rank: int)
    requires
        total_order::<K>(),
        not_after(m, a).len() > rank,
        strictly_before(m, b).len() <= rank,
    ensures
        le(b, a),
{
    if !le(b, a) {
        assert(not_after(m, a).subset_of(strictly_before(m, b))) by {
            assert forall|x: HeapEntry<K, D>|
                not_after(m, a).count(x) <= strictly_before(m, b).count(x) by {
                if le(x.key, a) && le(b, x.key) {
                    lemma_le_transitive(b, x.key, a);
                }
            }
        }
        lemma_subset_len(not_after(m, a), strictly_before(m, b));
    }
}

/// The minimum of two queues taken together is the minimum of one of them: the one
/// whose key is not after the other's.
pub proof fn lemma_minimum_of_union<K: Ord, D>(
    a: Multiset<HeapEntry<K, D>>,
    b: Multiset<HeapEntry<K, D>>,
    least_a: HeapEntry<K, D>,
    least_b: HeapEntry<K, D>,
)
    requires
        total_order::<K>(),
        is_minimum(a, least_a),
        is_minimum(b, least_b),
    ensures
        is_minimum(
            a.add(b),
            if le(least_a.key, least_b.key) {
                least_a
            } else {
                least_b
            },
        ),
{
    lemma_le_total(least_a.key, least_b.key);
    let least = if le(least_a.key, least_b.key) {
        least_a
    } else {
        least_b
    };
    assert forall|x: HeapEntry<K, D>| a.add(b).count(x) > 0 implies le(least.key, x.key) by {
        if a.count(x) > 0 {
            lemma_le_transitive(least.key, least_a.key, x.key);
        } else {
            lemma_le_transitive(least.key, least_b.key, x.key);
        }
    }
}

/// Merging with an empty queue keeps the minimum.
pub proof fn lemma_minimum_of_union_with_empty<K: Ord, D>(
    a: Multiset<HeapEntry<K, D>>,
    b: Multiset<HeapEntry<K, D>>,
    least: HeapEntry<K, D>,
)
    requires
        is_minimum(a, least),
        b.len() == 0,
    ensures
        is_minimum(a.add(b), least),
        is_minimum(b.add(a), least),
{
    assert forall|x: HeapEntry<K, D>| b.count(x) == 0 by {
        assert(b.count(x) <= b.len());
    }
}

/// After the key of a stored entry has been replaced by one that is not after it, the
/// entry is stored under the new key, as many entries are stored as before, and the
/// entry is a minimum if no stored key was before the new key.
pub proof fn lemma_decreased_entry<K: Ord, D>(
    before: Multiset<HeapEntry<K, D>>,
    entry: HeapEntry<K, D>,
    new_key: K,
)
    requires
        total_order::<K>(),
        before.count(entry) > 0,
        le(new_key, entry.key),
    ensures
        ({
            let moved = HeapEntry { key: new_key, data: entry.data };
            let after = before.remove(entry).insert(moved);
            &&& after.count(moved) > 0
            &&& after.len() == before.len()
            &&& (forall|x: HeapEntry<K, D>| before.count(x) > 0 ==> le(new_key, x.key))
                ==> is_minimum(after, moved)
            &&& forall|least: HeapEntry<K, D>|
                is_minimum(after, least) ==> le(least.key, new_key)
        }),
{
    let moved = HeapEntry { key: new_key, data: entry.data };
    let after = before.remove(entry).insert(moved);
    lemma_remove_len(before, entry);
    lemma_le_reflexive(new_key);
}

} // verus!
