//! The ordered store: two index-aligned columns, one of keys and one of
//! values, kept sorted by key with insertion order preserved inside each
//! key's run and duplicate pairs rejected.

use vstd::prelude::*;

use crate::model::Bound;
use crate::model::Entry;
use crate::model::distinct_entries;
use crate::model::filter_key;
use crate::model::insert_all;
use crate::model::is_lower_split;
use crate::model::is_upper_split;
use crate::model::lemma_lower_split_elim;
use crate::model::lemma_spec_insert_props;
use crate::model::lemma_spec_sort_by_key_props;
use crate::model::lemma_splits_delimit_run;
use crate::model::lemma_sorted_runs_unique;
use crate::model::lemma_upper_split_elim;
use crate::model::lemma_values_of_key_is_run;
use crate::model::lower_split_of;
use crate::model::render_entry_listing;
use crate::model::sorted_by_key;
use crate::model::spec_insert;
use crate::model::spec_range;
use crate::model::spec_sort_by_key;
use crate::model::upper_split_of;
use crate::model::values_of_key;
use crate::model::zip_entries;
use crate::traverse::Range;
use crate::traverse::Tuples;
use crate::traverse::ValuesOf;
use vstd::string::StringExecFns;

verus! {

/// Stores `(key, value)` entries ordered by key, then by insertion order
/// among the values of one key; a pair already present is not stored again.
/// Two parallel growable arrays hold the key and value columns, so key-only
/// binary search and whole-column reads stay cheap.
#[derive(Debug)]
pub struct SortedList {
    keys: Vec<u64>,
    values: Vec<u64>,
}

impl View for SortedList {
    type V = Seq<Entry>;

    /// The stored entries, in storage order.
    closed spec fn view(&self) -> Seq<Entry> {
        zip_entries(self.keys@, self.values@)
    }
}

impl SortedList {
    /// The columns are parallel, the keys are sorted, and no pair repeats.
    pub closed spec fn wf(self) -> bool {
        &&& self.keys@.len() == self.values@.len()
        &&& sorted_by_key(self@)
        &&& distinct_entries(self@)
    }

    /// A well-formed store is sorted by key and stores no pair twice.
    pub proof fn lemma_wf_view(self)
        requires
            self.wf(),
        ensures
            sorted_by_key(self@),
            distinct_entries(self@),
    {
    }

    /// Creates an empty store.
    pub fn new() -> (r: SortedList)
        ensures
            r.wf(),
            r@ == Seq::<Entry>::empty(),
    {
        let r = SortedList { keys: Vec::new(), values: Vec::new() };
        proof {
            assert(r@ =~= Seq::<Entry>::empty());
        }
        r
    }

    /// Returns the number of stored entries.
    pub fn len(&self) -> (n: usize)
        requires
            self.wf(),
        ensures
            n == self@.len(),
    {
        self.keys.len()
    }

    /// Binary search for the end of `key`'s run: the first index whose key
    /// exceeds `key`.
    fn upper_split(&self, key: u64) -> (r: usize)
        requires
            self.wf(),
        ensures
            r as int == upper_split_of(self@, key),
            is_upper_split(self@, key, r as int),
    {
        let mut lo: usize = 0;
        let mut hi: usize = self.keys.len();
        while lo < hi
            invariant
                self.wf(),
                lo <= hi <= self@.len(),
                forall|j: int| 0 <= j < lo ==> (#[trigger] self@[j]).0 <= key,
                forall|j: int| hi <= j < self@.len() ==> (#[trigger] self@[j]).0 > key,
            decreases hi - lo,
        {
            let mid = lo + (hi - lo) / 2;
            if self.keys[mid] <= key {
                proof {
                    assert forall|j: int| 0 <= j < mid + 1 implies (#[trigger] self@[j]).0
                        <= key by {
                        assert(self@[j].0 <= self@[mid as int].0);
                    }
                }
                lo = mid + 1;
            } else {
                proof {
                    assert forall|j: int| mid <= j < self@.len() implies (#[trigger] self@[j]).0
                        > key by {
                        assert(self@[mid as int].0 <= self@[j].0);
                    }
                }
                hi = mid;
            }
        }
        proof {
            lemma_upper_split_elim(self@, key, lo as int);
        }
        lo
    }

    /// Binary search for the start of `key`'s run: the first index whose key
    /// reaches `key`, which is the insertion bound when the key is absent.
    fn lower_split(&self, key: u64) -> (r: usize)
        requires
            self.wf(),
        ensures
            r as int == lower_split_of(self@, key),
            is_lower_split(self@, key, r as int),
    {
        let mut lo: usize = 0;
        let mut hi: usize = self.keys.len();
        while lo < hi
            invariant
                self.wf(),
                lo <= hi <= self@.len(),
                forall|j: int| 0 <= j < lo ==> (#[trigger] self@[j]).0 < key,
                forall|j: int| hi <= j < self@.len() ==> (#[trigger] self@[j]).0 >= key,
            decreases hi - lo,
        {
            let mid = lo + (hi - lo) / 2;
            if self.keys[mid] < key {
                proof {
                    assert forall|j: int| 0 <= j < mid + 1 implies (#[trigger] self@[j]).0
                        < key by {
                        assert(self@[j].0 <= self@[mid as int].0);
                    }
                }
                lo = mid + 1;
            } else {
                proof {
                    assert forall|j: int| mid <= j < self@.len() implies (#[trigger] self@[j]).0
                        >= key by {
                        assert(self@[mid as int].0 <= self@[j].0);
                    }
                }
                hi = mid;
            }
        }
        proof {
            lemma_lower_split_elim(self@, key, lo as int);
        }
        lo
    }

    /// Inserts the pair unless an identical `(key, value)` pair is already
    /// stored; returns whether a new entry was added. A new entry enters at
    /// the end of its key's run, so values of one key keep insertion order.
    pub fn insert(&mut self, key: u64, value: u64) -> (added: bool)
        requires
            old(self).wf(),
        ensures
            final(self).wf(),
            final(self)@ == spec_insert(old(self)@, key, value),
            added == !old(self)@.contains((key, value)),
    {
        let pos = self.upper_split(key);
        // walk back over the run of `key`, rejecting a duplicate pair
        let mut i = pos;
        while i > 0 && self.keys[i - 1] == key
            invariant
                *self == *old(self),
                self.wf(),
                i <= pos,
                pos as int == upper_split_of(self@, key),
                is_upper_split(self@, key, pos as int),
                forall|j: int| i <= j < pos ==> #[trigger] self@[j] != (key, value),
            decreases i,
        {
            if self.values[i - 1] == value {
                proof {
                    assert(self@[i - 1] == (key, value));
                }
                return false;
            }
            proof {
                assert(self@[i - 1] != (key, value));
            }
            i = i - 1;
        }
        proof {
            assert forall|j: int| 0 <= j < self@.len() implies #[trigger] self@[j] != (
            key,
            value,
            ) by {
                if j < i {
                    assert(i > 0);
                    assert(self@[i - 1].0 <= key);
                    assert(self@[j].0 <= self@[i - 1].0);
                } else if j >= pos {
                    assert(self@[j].0 > key);
                }
            }
            assert(!old(self)@.contains((key, value)));
            lemma_spec_insert_props(old(self)@, key, value);
        }
        self.keys.insert(pos, key);
        self.values.insert(pos, value);
        proof {
            assert(final(self)@ =~= old(self)@.insert(pos as int, (key, value)));
        }
        true
    }

    /// Returns a traversal over the values stored under `key`, in insertion
    /// order: empty when the key is absent.
    pub fn values_of<'a>(&'a self, key: u64) -> (r: ValuesOf<'a>)
        requires
            self.wf(),
        ensures
            r.wf(),
            r@ == values_of_key(self@, key),
    {
        let start = self.lower_split(key);
        let end = self.upper_split(key);
        proof {
            lemma_splits_delimit_run(self@, key);
            lemma_values_of_key_is_run(self@, key);
            assert(self.values@.subrange(start as int, end as int) =~= self@.subrange(
                start as int,
                end as int,
            ).map_values(|e: Entry| e.1));
        }
        ValuesOf::new(&self.values, start, end)
    }

    /// Returns a traversal over all stored entries, keys in order, the
    /// values of each key in insertion order.
    pub fn iter<'a>(&'a self) -> (r: Tuples<'a>)
        requires
            self.wf(),
        ensures
            r.wf(),
            r@ == self@,
    {
        Tuples::new(&self.keys, &self.values)
    }

    /// Returns the key column: every stored key, duplicates included, in
    /// non-decreasing order.
    pub fn keys(&self) -> (r: &Vec<u64>)
        requires
            self.wf(),
        ensures
            r@ == self@.map_values(|e: Entry| e.0),
    {
        proof {
            assert(self.keys@ =~= self@.map_values(|e: Entry| e.0));
        }
        &self.keys
    }

    /// Returns the value column: every stored value, in storage order.
    pub fn values(&self) -> (r: &Vec<u64>)
        requires
            self.wf(),
        ensures
            r@ == self@.map_values(|e: Entry| e.1),
    {
        proof {
            assert(self.values@ =~= self@.map_values(|e: Entry| e.1));
        }
        &self.values
    }

    /// Returns a traversal over the entries whose key satisfies both bounds.
    /// An excluded or absent key resolves to its insertion bound, and a range
    /// whose end does not exceed its start is empty.
    pub fn range<'a>(&'a self, lower: Bound, upper: Bound) -> (r: Range<'a>)
        requires
            self.wf(),
        ensures
            r.wf(),
            r@ == spec_range(self@, lower, upper),
    {
        let start = match lower {
            Bound::Included(k) => self.lower_split(k),
            Bound::Excluded(k) => self.upper_split(k),
            Bound::Unbounded => 0,
        };
        let end = match upper {
            Bound::Included(k) => self.upper_split(k),
            Bound::Excluded(k) => self.lower_split(k),
            Bound::Unbounded => self.keys.len(),
        };
        if end <= start {
            let r = Range::new(&self.keys, &self.values, 0, 0);
            proof {
                assert(r@ =~= spec_range(self@, lower, upper));
            }
            r
        } else {
            Range::new(&self.keys, &self.values, start, end)
        }
    }

    /// Renders the store for diagnostics: its entries, bracketed and
    /// comma-separated, inside a `SortedList { ... }` frame.
    pub fn debug_string(&self) -> (s: String)
        requires
            self.wf(),
        ensures
            s@ == "SortedList { "@ + render_entry_listing(self@) + " }"@,
    {
        let inner = self.iter().debug_string();
        let mut out = String::new();
        out.append("SortedList { ");
        out.append(inner.as_str());
        out.append(" }");
        proof {
            assert(out@ =~= "SortedList { "@ + render_entry_listing(self@) + " }"@);
        }
        out
    }

    /// Bulk-inserts a batch of pairs: the store ends as if the batch had been
    /// inserted pair by pair in stable sorted-by-key order. Sorting first
    /// turns every insertion into an append, avoiding the quadratic cost an
    /// unsorted batch would pay.
    pub fn extend(&mut self, batch: Vec<(u64, u64)>)
        requires
            old(self).wf(),
        ensures
            final(self).wf(),
            final(self)@ == insert_all(old(self)@, spec_sort_by_key(batch@)),
    {
        let ghost given = batch@;
        let mut batch = batch;
        sort_pairs_by_key(&mut batch);
        proof {
            lemma_spec_sort_by_key_props(given);
            lemma_sorted_runs_unique(batch@, spec_sort_by_key(given));
        }
        let ghost sorted = batch@;
        proof {
            assert(sorted.skip(0) =~= sorted);
        }
        let n = batch.len();
        let mut i: usize = 0;
        while i < n
            invariant
                self.wf(),
                n == batch@.len(),
                batch@ == sorted,
                i <= n,
                insert_all(self@, sorted.skip(i as int)) == insert_all(old(self)@, sorted),
            decreases n - i,
        {
            let (k, v) = batch[i];
            proof {
                assert(sorted.skip(i as int)[0] == (k, v));
                assert(sorted.skip(i as int).drop_first() =~= sorted.skip(i as int + 1));
            }
            self.insert(k, v);
            i = i + 1;
        }
        proof {
            assert(sorted.skip(n as int) =~= Seq::<Entry>::empty());
        }
    }
}

/// Relies on `slice::sort_by_key` (through `Vec`'s slice methods): the pairs
/// end in non-decreasing key order, and the sort is stable, so the pairs of
/// each key keep their relative order; for every key, the filtered
/// subsequence is unchanged.
#[verifier::external_body]
fn sort_pairs_by_key(batch: &mut Vec<(u64, u64)>)
    ensures
        sorted_by_key(final(batch)@),
        forall|k: u64| #[trigger] filter_key(final(batch)@, k) == filter_key(old(batch)@, k),
{
    batch.sort_by_key(|e: &(u64, u64)| e.0);
}

} // verus!
