//! The laws of the store, proved over the model: what any sequence of
//! insertions guarantees about ordering, uniqueness and range reads.

use vstd::prelude::*;

use crate::model::Bound;
use crate::model::Entry;
use crate::model::distinct_entries;
use crate::model::filter_key;
use crate::model::lemma_filter_key_none;
use crate::model::lemma_insert_at_upper_split;
use crate::model::lemma_spec_insert_props;
use crate::model::lemma_splits_delimit_run;
use crate::model::lemma_values_of_key_is_run;
use crate::model::lower_split_of;
use crate::model::sorted_by_key;
use crate::model::spec_insert;
use crate::model::spec_range;
use crate::model::upper_split_of;
use crate::model::values_of_key;

verus! {

/// Insertion order: a successful insertion appends its value to the end of
/// its key's value sequence and leaves every other key's value sequence
/// unchanged; a rejected duplicate changes nothing. So after any sequence of
/// inserts, each key's values stand in the order they were successfully
/// inserted.
pub proof fn lemma_insertion_order(s: Seq<Entry>, key: u64, value: u64)
    requires
        sorted_by_key(s),
        distinct_entries(s),
    ensures
        !s.contains((key, value)) ==> values_of_key(spec_insert(s, key, value), key)
            == values_of_key(s, key).push(value),
        s.contains((key, value)) ==> spec_insert(s, key, value) == s,
        forall|k: u64|
            k != key ==> #[trigger] values_of_key(spec_insert(s, key, value), k) == values_of_key(
                s,
                k,
            ),
{
    let t = spec_insert(s, key, value);
    if !s.contains((key, value)) {
        lemma_insert_at_upper_split(s, key, value);
        assert(values_of_key(t, key) =~= values_of_key(s, key).push(value));
    }
    assert forall|k: u64| k != key implies #[trigger] values_of_key(t, k) == values_of_key(
        s,
        k,
    ) by {
        if !s.contains((key, value)) {
            lemma_insert_at_upper_split(s, key, value);
            assert(filter_key(t, k) == filter_key(s, k));
        }
    }
}

/// Sortedness: the empty store's key column is trivially non-decreasing, and
/// every insertion keeps the key column non-decreasing and the stored pairs
/// distinct: so both hold after any sequence of inserts.
pub proof fn lemma_insert_keeps_sorted(s: Seq<Entry>, key: u64, value: u64)
    requires
        sorted_by_key(s),
        distinct_entries(s),
    ensures
        sorted_by_key(spec_insert(s, key, value)),
        distinct_entries(spec_insert(s, key, value)),
{
    lemma_spec_insert_props(s, key, value);
}

/// Pair uniqueness: inserting a pair that is not yet stored grows the store
/// by exactly one entry and stores the pair, and inserting the same pair
/// again changes nothing: the first attempt is accepted, the second
/// rejected.
pub proof fn lemma_pair_uniqueness(s: Seq<Entry>, key: u64, value: u64)
    requires
        sorted_by_key(s),
        distinct_entries(s),
        !s.contains((key, value)),
    ensures
        spec_insert(s, key, value).len() == s.len() + 1,
        spec_insert(s, key, value).contains((key, value)),
        spec_insert(spec_insert(s, key, value), key, value) == spec_insert(s, key, value),
{
    lemma_spec_insert_props(s, key, value);
    lemma_spec_insert_props(spec_insert(s, key, value), key, value);
}

/// An absent key stores no values: its value sequence is empty.
pub proof fn lemma_values_of_absent(s: Seq<Entry>, key: u64)
    requires
        forall|j: int| 0 <= j < s.len() ==> (#[trigger] s[j]).0 != key,
    ensures
        values_of_key(s, key) == Seq::<u64>::empty(),
{
    lemma_filter_key_none(s, key);
    assert(values_of_key(s, key) =~= Seq::<u64>::empty());
}

/// A range unbounded on both sides reads the whole store, exactly as the
/// full traversal does.
pub proof fn lemma_range_full(s: Seq<Entry>)
    ensures
        spec_range(s, Bound::Unbounded, Bound::Unbounded) == s,
{
    if s.len() == 0 {
        assert(spec_range(s, Bound::Unbounded, Bound::Unbounded) =~= s);
    } else {
        assert(s.subrange(0, s.len() as int) =~= s);
    }
}

/// A range included on both sides at one key reads exactly that key's run:
/// every entry carries the key, and the values are the key's value sequence.
pub proof fn lemma_range_single_key(s: Seq<Entry>, key: u64)
    requires
        sorted_by_key(s),
    ensures
        spec_range(s, Bound::Included(key), Bound::Included(key)) == filter_key(s, key),
        spec_range(s, Bound::Included(key), Bound::Included(key)).map_values(|e: Entry| e.1)
            == values_of_key(s, key),
        forall|i: int|
            0 <= i < spec_range(s, Bound::Included(key), Bound::Included(key)).len() ==> (
            #[trigger] spec_range(s, Bound::Included(key), Bound::Included(key))[i]).0 == key,
{
    lemma_splits_delimit_run(s, key);
    lemma_values_of_key_is_run(s, key);
    let l = lower_split_of(s, key);
    let u = upper_split_of(s, key);
    if u <= l {
        assert(l == u);
        assert(s.subrange(l, u) =~= Seq::<Entry>::empty());
        assert(spec_range(s, Bound::Included(key), Bound::Included(key)) == Seq::<Entry>::empty());
    }
}

} // verus!
