//! The mathematical model of the list: specification functions over the
//! sequence of stored entries, and the lemmas that connect them.

use vstd::prelude::*;

verus! {

/// A stored entry: a key together with one of its values.
pub type Entry = (u64, u64);

/// A bound of a range query, on one side.
#[derive(Clone, Copy, Debug)]
pub enum Bound {
    /// Entries whose key equals the bound's key are inside the range.
    Included(u64),
    /// Entries whose key equals the bound's key are outside the range.
    Excluded(u64),
    /// No constraint on this side.
    Unbounded,
}

/// The keys of the entries appear in non-decreasing order.
pub open spec fn sorted_by_key(s: Seq<Entry>) -> bool {
    forall|i: int, j: int| 0 <= i <= j < s.len() ==> (#[trigger] s[i]).0 <= (#[trigger] s[j]).0
}

/// No `(key, value)` pair occurs twice.
pub open spec fn distinct_entries(s: Seq<Entry>) -> bool {
    forall|i: int, j: int| 0 <= i < j < s.len() ==> #[trigger] s[i] != #[trigger] s[j]
}

/// The first index whose key exceeds `key`: in a sorted sequence, the end of
/// `key`'s run, and the position at which a new entry with that key is
/// inserted.
pub open spec fn upper_split_of(s: Seq<Entry>, key: u64) -> int
    decreases s.len(),
{
    if s.len() == 0 {
        0
    } else if s[0].0 > key {
        0
    } else {
        1 + upper_split_of(s.drop_first(), key)
    }
}

/// The first index whose key is at least `key`: in a sorted sequence, the
/// start of `key`'s run, or the insertion bound when the key is absent.
pub open spec fn lower_split_of(s: Seq<Entry>, key: u64) -> int
    decreases s.len(),
{
    if s.len() == 0 {
        0
    } else if s[0].0 >= key {
        0
    } else {
        1 + lower_split_of(s.drop_first(), key)
    }
}

/// `i` separates the keys at most `key` from the keys above `key`.
pub open spec fn is_upper_split(s: Seq<Entry>, key: u64, i: int) -> bool {
    &&& 0 <= i <= s.len()
    &&& forall|j: int| 0 <= j < i ==> (#[trigger] s[j]).0 <= key
    &&& forall|j: int| i <= j < s.len() ==> (#[trigger] s[j]).0 > key
}

/// `i` separates the keys below `key` from the keys at least `key`.
pub open spec fn is_lower_split(s: Seq<Entry>, key: u64, i: int) -> bool {
    &&& 0 <= i <= s.len()
    &&& forall|j: int| 0 <= j < i ==> (#[trigger] s[j]).0 < key
    &&& forall|j: int| i <= j < s.len() ==> (#[trigger] s[j]).0 >= key
}

/// The sequence after one insertion: unchanged when the pair is already
/// present, otherwise the pair enters at the end of its key's run.
pub open spec fn spec_insert(s: Seq<Entry>, key: u64, value: u64) -> Seq<Entry> {
    if s.contains((key, value)) {
        s
    } else {
        s.insert(upper_split_of(s, key), (key, value))
    }
}

/// The subsequence of entries whose key equals `key`, in order.
pub open spec fn filter_key(s: Seq<Entry>, key: u64) -> Seq<Entry>
    decreases s.len(),
{
    if s.len() == 0 {
        Seq::empty()
    } else if s[0].0 == key {
        seq![s[0]] + filter_key(s.drop_first(), key)
    } else {
        filter_key(s.drop_first(), key)
    }
}

/// The values stored under `key`, in order.
pub open spec fn values_of_key(s: Seq<Entry>, key: u64) -> Seq<u64> {
    filter_key(s, key).map_values(|e: Entry| e.1)
}

/// The sequence after inserting every entry of `batch`, first to last.
pub open spec fn insert_all(s: Seq<Entry>, batch: Seq<Entry>) -> Seq<Entry>
    decreases batch.len(),
{
    if batch.len() == 0 {
        s
    } else {
        insert_all(spec_insert(s, batch[0].0, batch[0].1), batch.drop_first())
    }
}

/// `batch` rearranged into non-decreasing key order, entries that share a key
/// keeping their relative order: the stable sort of `batch` by key.
pub open spec fn spec_sort_by_key(batch: Seq<Entry>) -> Seq<Entry>
    decreases batch.len(),
{
    if batch.len() == 0 {
        Seq::empty()
    } else {
        let sorted_prefix = spec_sort_by_key(batch.drop_last());
        sorted_prefix.insert(upper_split_of(sorted_prefix, batch.last().0), batch.last())
    }
}

/// The first index inside a range with the given lower bound.
pub open spec fn range_start_of(s: Seq<Entry>, lower: Bound) -> int {
    match lower {
        Bound::Included(k) => lower_split_of(s, k),
        Bound::Excluded(k) => upper_split_of(s, k),
        Bound::Unbounded => 0,
    }
}

/// The first index past a range with the given upper bound.
pub open spec fn range_end_of(s: Seq<Entry>, upper: Bound) -> int {
    match upper {
        Bound::Included(k) => upper_split_of(s, k),
        Bound::Excluded(k) => lower_split_of(s, k),
        Bound::Unbounded => s.len() as int,
    }
}

/// The entries whose key satisfies both bounds: empty whenever the resolved
/// end does not exceed the resolved start.
pub open spec fn spec_range(s: Seq<Entry>, lower: Bound, upper: Bound) -> Seq<Entry> {
    let start = range_start_of(s, lower);
    let end = range_end_of(s, upper);
    if end <= start {
        Seq::empty()
    } else {
        s.subrange(start, end)
    }
}

/// The entries of a pair of equal-length key and value columns.
pub open spec fn zip_entries(ks: Seq<u64>, vs: Seq<u64>) -> Seq<Entry> {
    Seq::new(ks.len(), |i: int| (ks[i], vs[i]))
}

/// Dropping the first element of a sorted sequence keeps it sorted.
proof fn lemma_sorted_drop_first(s: Seq<Entry>)
    requires
        sorted_by_key(s),
        s.len() > 0,
    ensures
        sorted_by_key(s.drop_first()),
{
    let t = s.drop_first();
    assert forall|i: int, j: int| 0 <= i <= j < t.len() implies (#[trigger] t[i]).0
        <= (#[trigger] t[j]).0 by {
        assert(s[i + 1].0 <= s[j + 1].0);
    }
}

/// In a sorted sequence, `upper_split_of` is the split of keys at most `key`
/// from keys above it.
pub proof fn lemma_upper_split_of_is_split(s: Seq<Entry>, key: u64)
    requires
        sorted_by_key(s),
    ensures
        is_upper_split(s, key, upper_split_of(s, key)),
    decreases s.len(),
{
    if s.len() == 0 {
    } else if s[0].0 > key {
        assert forall|j: int| 0 <= j < s.len() implies (#[trigger] s[j]).0 > key by {
            assert(s[0].0 <= s[j].0);
        }
    } else {
        let t = s.drop_first();
        lemma_sorted_drop_first(s);
        lemma_upper_split_of_is_split(t, key);
        let u = upper_split_of(s, key);
        assert forall|j: int| 0 <= j < u implies (#[trigger] s[j]).0 <= key by {
            if j > 0 {
                assert(t[j - 1].0 <= key);
                assert(t[j - 1] == s[j]);
            }
        }
        assert forall|j: int| u <= j < s.len() implies (#[trigger] s[j]).0 > key by {
            assert(t[j - 1].0 > key);
            assert(t[j - 1] == s[j]);
        }
    }
}

/// In a sorted sequence, `lower_split_of` is the split of keys below `key`
/// from keys at least it.
pub proof fn lemma_lower_split_of_is_split(s: Seq<Entry>, key: u64)
    requires
        sorted_by_key(s),
    ensures
        is_lower_split(s, key, lower_split_of(s, key)),
    decreases s.len(),
{
    if s.len() == 0 {
    } else if s[0].0 >= key {
        assert forall|j: int| 0 <= j < s.len() implies (#[trigger] s[j]).0 >= key by {
            assert(s[0].0 <= s[j].0);
        }
    } else {
        let t = s.drop_first();
        lemma_sorted_drop_first(s);
        lemma_lower_split_of_is_split(t, key);
        let l = lower_split_of(s, key);
        assert forall|j: int| 0 <= j < l implies (#[trigger] s[j]).0 < key by {
            if j > 0 {
                assert(t[j - 1].0 < key);
                assert(t[j - 1] == s[j]);
            }
        }
        assert forall|j: int| l <= j < s.len() implies (#[trigger] s[j]).0 >= key by {
            assert(t[j - 1].0 >= key);
            assert(t[j - 1] == s[j]);
        }
    }
}

/// A sorted sequence has exactly one upper split for each key.
pub proof fn lemma_upper_split_elim(s: Seq<Entry>, key: u64, i: int)
    requires
        sorted_by_key(s),
        is_upper_split(s, key, i),
    ensures
        i == upper_split_of(s, key),
{
    let u = upper_split_of(s, key);
    lemma_upper_split_of_is_split(s, key);
    if i < u {
        assert(s[i].0 > key);
        assert(s[i].0 <= key);
    }
    if u < i {
        assert(s[u].0 > key);
        assert(s[u].0 <= key);
    }
}

/// A sorted sequence has exactly one lower split for each key.
pub proof fn lemma_lower_split_elim(s: Seq<Entry>, key: u64, i: int)
    requires
        sorted_by_key(s),
        is_lower_split(s, key, i),
    ensures
        i == lower_split_of(s, key),
{
    let l = lower_split_of(s, key);
    lemma_lower_split_of_is_split(s, key);
    if i < l {
        assert(s[i].0 >= key);
        assert(s[i].0 < key);
    }
    if l < i {
        assert(s[l].0 >= key);
        assert(s[l].0 < key);
    }
}

/// The two splits delimit `key`'s run: every entry between them carries `key`.
pub proof fn lemma_splits_delimit_run(s: Seq<Entry>, key: u64)
    requires
        sorted_by_key(s),
    ensures
        0 <= lower_split_of(s, key) <= upper_split_of(s, key) <= s.len(),
        forall|j: int|
            lower_split_of(s, key) <= j < upper_split_of(s, key) ==> (#[trigger] s[j]).0 == key,
{
    let l = lower_split_of(s, key);
    let u = upper_split_of(s, key);
    lemma_lower_split_of_is_split(s, key);
    lemma_upper_split_of_is_split(s, key);
    if u < l {
        assert(s[u].0 > key);
        assert(s[u].0 < key);
    }
    assert forall|j: int| l <= j < u implies (#[trigger] s[j]).0 == key by {
        assert(s[j].0 >= key);
        assert(s[j].0 <= key);
    }
}

/// Filtering by key distributes over concatenation.
pub proof fn lemma_filter_key_add(a: Seq<Entry>, b: Seq<Entry>, key: u64)
    ensures
        filter_key(a + b, key) == filter_key(a, key) + filter_key(b, key),
    decreases a.len(),
{
    if a.len() == 0 {
        assert(a + b =~= b);
        assert(filter_key(a, key) + filter_key(b, key) =~= filter_key(b, key));
    } else {
        lemma_filter_key_add(a.drop_first(), b, key);
        assert((a + b).drop_first() =~= a.drop_first() + b);
        assert((a + b)[0] == a[0]);
        if a[0].0 == key {
            assert(seq![a[0]] + (filter_key(a.drop_first(), key) + filter_key(b, key)) =~= (seq![
                a[0],
            ] + filter_key(a.drop_first(), key)) + filter_key(b, key));
        }
    }
}

/// A sequence without the key filters to nothing.
pub proof fn lemma_filter_key_none(s: Seq<Entry>, key: u64)
    requires
        forall|j: int| 0 <= j < s.len() ==> (#[trigger] s[j]).0 != key,
    ensures
        filter_key(s, key) == Seq::<Entry>::empty(),
    decreases s.len(),
{
    if s.len() > 0 {
        let t = s.drop_first();
        assert forall|j: int| 0 <= j < t.len() implies (#[trigger] t[j]).0 != key by {
            assert(t[j] == s[j + 1]);
        }
        lemma_filter_key_none(t, key);
    }
}

/// A sequence all of whose entries carry the key filters to itself.
pub proof fn lemma_filter_key_all(s: Seq<Entry>, key: u64)
    requires
        forall|j: int| 0 <= j < s.len() ==> (#[trigger] s[j]).0 == key,
    ensures
        filter_key(s, key) == s,
    decreases s.len(),
{
    if s.len() > 0 {
        let t = s.drop_first();
        assert forall|j: int| 0 <= j < t.len() implies (#[trigger] t[j]).0 == key by {
            assert(t[j] == s[j + 1]);
        }
        lemma_filter_key_all(t, key);
        assert(seq![s[0]] + t =~= s);
    }
}

/// Every filtered entry carries the key and comes from the sequence.
pub proof fn lemma_filter_key_sub(s: Seq<Entry>, key: u64)
    ensures
        forall|i: int|
            0 <= i < filter_key(s, key).len() ==> (#[trigger] filter_key(s, key)[i]).0 == key
                && s.contains(filter_key(s, key)[i]),
    decreases s.len(),
{
    if s.len() > 0 {
        let t = s.drop_first();
        lemma_filter_key_sub(t, key);
        let f = filter_key(s, key);
        let ft = filter_key(t, key);
        assert forall|i: int| 0 <= i < f.len() implies (#[trigger] f[i]).0 == key && s.contains(
            f[i],
        ) by {
            if s[0].0 == key && i == 0 {
                assert(f[0] == s[0]);
            } else {
                let fi = if s[0].0 == key {
                    i - 1
                } else {
                    i
                };
                assert(f[i] == ft[fi]);
                let j = choose|j: int| 0 <= j < t.len() && t[j] == ft[fi];
                assert(s[j + 1] == f[i]);
            }
        }
    }
}

/// A singleton keeps or loses its entry under the filter, by its key.
proof fn lemma_filter_key_single(p: Entry, key: u64)
    ensures
        filter_key(seq![p], key) == if p.0 == key {
            seq![p]
        } else {
            Seq::<Entry>::empty()
        },
{
    let s = seq![p];
    assert(s.drop_first() =~= Seq::<Entry>::empty());
    assert(filter_key(s.drop_first(), key) == Seq::<Entry>::empty());
    if p.0 == key {
        assert(filter_key(s, key) =~= seq![p]);
    }
}

/// Inserting an entry at its key's upper split keeps the sequence sorted,
/// appends the entry to its key's run, and leaves every other key's run
/// unchanged.
pub proof fn lemma_insert_at_upper_split(s: Seq<Entry>, key: u64, value: u64)
    requires
        sorted_by_key(s),
    ensures
        ({
            let u = upper_split_of(s, key);
            let t = s.insert(u, (key, value));
            &&& sorted_by_key(t)
            &&& t.len() == s.len() + 1
            &&& t[u] == (key, value)
            &&& filter_key(t, key) == filter_key(s, key).push((key, value))
            &&& forall|k: u64| k != key ==> #[trigger] filter_key(t, k) == filter_key(s, k)
        }),
{
    lemma_upper_split_of_is_split(s, key);
    let u = upper_split_of(s, key);
    let p = (key, value);
    let pre = s.subrange(0, u);
    let suf = s.subrange(u, s.len() as int);
    let t = s.insert(u, p);
    assert(t =~= pre + seq![p] + suf);
    assert(s =~= pre + suf);
    assert(t[u] == p);
    assert forall|i: int, j: int| 0 <= i <= j < t.len() implies (#[trigger] t[i]).0
        <= (#[trigger] t[j]).0 by {
        if i < u {
            assert(t[i] == s[i]);
        }
        if j < u {
            assert(t[j] == s[j]);
        }
        if i > u {
            assert(t[i] == s[i - 1]);
        }
        if j > u {
            assert(t[j] == s[j - 1]);
        }
        if i < u && j < u {
            assert(s[i].0 <= s[j].0);
        } else if i < u && j == u {
            assert(s[i].0 <= key);
        } else if i < u && j > u {
            assert(s[i].0 <= s[j - 1].0);
        } else if i == u && j > u {
            assert(s[j - 1].0 > key);
        } else if i > u && j > u {
            assert(s[i - 1].0 <= s[j - 1].0);
        }
    }
    // the run of `key` gains `p` at its end
    lemma_filter_key_add(pre + seq![p], suf, key);
    lemma_filter_key_add(pre, seq![p], key);
    lemma_filter_key_add(pre, suf, key);
    lemma_filter_key_single(p, key);
    assert forall|j: int| 0 <= j < suf.len() implies (#[trigger] suf[j]).0 != key by {
        assert(suf[j] == s[u + j]);
        assert(s[u + j].0 > key);
    }
    lemma_filter_key_none(suf, key);
    assert(filter_key(t, key) =~= filter_key(s, key).push(p));
    // every other run is untouched
    assert forall|k: u64| k != key implies #[trigger] filter_key(t, k) == filter_key(s, k) by {
        lemma_filter_key_add(pre + seq![p], suf, k);
        lemma_filter_key_add(pre, seq![p], k);
        lemma_filter_key_add(pre, suf, k);
        lemma_filter_key_single(p, k);
        assert(filter_key(t, k) =~= filter_key(s, k));
    }
}

/// What one insertion does to the model: the properties of `spec_insert` on a
/// well-formed sequence.
pub proof fn lemma_spec_insert_props(s: Seq<Entry>, key: u64, value: u64)
    requires
        sorted_by_key(s),
        distinct_entries(s),
    ensures
        ({
            let t = spec_insert(s, key, value);
            &&& sorted_by_key(t)
            &&& distinct_entries(t)
            &&& t.contains((key, value))
            &&& s.contains((key, value)) ==> t == s
            &&& !s.contains((key, value)) ==> t.len() == s.len() + 1
        }),
{
    let p = (key, value);
    let t = spec_insert(s, key, value);
    if !s.contains(p) {
        lemma_insert_at_upper_split(s, key, value);
        lemma_upper_split_of_is_split(s, key);
        let u = upper_split_of(s, key);
        assert(t[u] == p);
        assert forall|i: int, j: int| 0 <= i < j < t.len() implies #[trigger] t[i]
            != #[trigger] t[j] by {
            if i < u {
                assert(t[i] == s[i]);
            }
            if j < u {
                assert(t[j] == s[j]);
            }
            if i > u {
                assert(t[i] == s[i - 1]);
            }
            if j > u {
                assert(t[j] == s[j - 1]);
            }
            if i == u {
                assert(j > u);
                assert(t[j] == s[j - 1]);
                assert(s[j - 1] != p);
            }
            if j == u {
                assert(i < u);
                assert(t[i] == s[i]);
                assert(s[i] != p);
            }
        }
    }
}

/// In a sorted sequence, the entries that carry `key` are exactly the
/// contiguous run between the two splits, and the values under `key` are that
/// run's value column.
pub proof fn lemma_values_of_key_is_run(s: Seq<Entry>, key: u64)
    requires
        sorted_by_key(s),
    ensures
        filter_key(s, key) == s.subrange(lower_split_of(s, key), upper_split_of(s, key)),
        values_of_key(s, key) == s.subrange(lower_split_of(s, key), upper_split_of(s, key))
            .map_values(|e: Entry| e.1),
{
    lemma_lower_split_of_is_split(s, key);
    lemma_upper_split_of_is_split(s, key);
    lemma_splits_delimit_run(s, key);
    let l = lower_split_of(s, key);
    let u = upper_split_of(s, key);
    let left = s.subrange(0, l);
    let run = s.subrange(l, u);
    let right = s.subrange(u, s.len() as int);
    assert(s =~= left + run + right);
    lemma_filter_key_add(left + run, right, key);
    lemma_filter_key_add(left, run, key);
    assert forall|j: int| 0 <= j < left.len() implies (#[trigger] left[j]).0 != key by {
        assert(left[j] == s[j]);
        assert(s[j].0 < key);
    }
    lemma_filter_key_none(left, key);
    assert forall|j: int| 0 <= j < right.len() implies (#[trigger] right[j]).0 != key by {
        assert(right[j] == s[u + j]);
        assert(s[u + j].0 > key);
    }
    lemma_filter_key_none(right, key);
    assert forall|j: int| 0 <= j < run.len() implies (#[trigger] run[j]).0 == key by {
        assert(run[j] == s[l + j]);
    }
    lemma_filter_key_all(run, key);
    assert(filter_key(s, key) =~= run);
}

/// The stable sort of a batch is sorted by key and keeps, for every key,
/// exactly the batch's entries for that key in the batch's order.
pub proof fn lemma_spec_sort_by_key_props(batch: Seq<Entry>)
    ensures
        sorted_by_key(spec_sort_by_key(batch)),
        spec_sort_by_key(batch).len() == batch.len(),
        forall|k: u64| #[trigger] filter_key(spec_sort_by_key(batch), k) == filter_key(batch, k),
    decreases batch.len(),
{
    if batch.len() == 0 {
        assert forall|k: u64| #[trigger] filter_key(spec_sort_by_key(batch), k) == filter_key(
            batch,
            k,
        ) by {
            assert(spec_sort_by_key(batch) == batch);
        }
    } else {
        let c = batch.drop_last();
        lemma_spec_sort_by_key_props(c);
        let sp = spec_sort_by_key(c);
        let e = batch.last();
        lemma_insert_at_upper_split(sp, e.0, e.1);
        let t = spec_sort_by_key(batch);
        assert(t == sp.insert(upper_split_of(sp, e.0), e));
        assert(batch =~= c + seq![e]);
        assert forall|k: u64| #[trigger] filter_key(t, k) == filter_key(batch, k) by {
            lemma_filter_key_add(c, seq![e], k);
            lemma_filter_key_single(e, k);
            if k == e.0 {
                assert(filter_key(t, k) == filter_key(sp, k).push(e));
                assert(filter_key(sp, k).push(e) =~= filter_key(c, k) + seq![e]);
            } else {
                assert(filter_key(batch, k) =~= filter_key(c, k));
            }
        }
    }
}

/// Two sorted sequences that agree on every key's run are equal: a sequence
/// is determined by its key order and its runs.
pub proof fn lemma_sorted_runs_unique(t1: Seq<Entry>, t2: Seq<Entry>)
    requires
        sorted_by_key(t1),
        sorted_by_key(t2),
        forall|k: u64| #[trigger] filter_key(t1, k) == filter_key(t2, k),
    ensures
        t1 == t2,
    decreases t1.len(),
{
    if t1.len() == 0 {
        if t2.len() > 0 {
            let k0 = t2[0].0;
            assert(filter_key(t2, k0) == seq![t2[0]] + filter_key(t2.drop_first(), k0));
            assert(filter_key(t1, k0).len() == 0);
        }
        assert(t1 =~= t2);
    } else if t2.len() == 0 {
        let k0 = t1[0].0;
        assert(filter_key(t1, k0) == seq![t1[0]] + filter_key(t1.drop_first(), k0));
        assert(filter_key(t2, k0).len() == 0);
        assert(t1 =~= t2);
    } else {
        let a = t1[0];
        let b = t2[0];
        let ka = a.0;
        let kb = b.0;
        assert(filter_key(t1, ka) == seq![a] + filter_key(t1.drop_first(), ka));
        assert(filter_key(t1, ka)[0] == a);
        assert(filter_key(t2, kb) == seq![b] + filter_key(t2.drop_first(), kb));
        assert(filter_key(t2, kb)[0] == b);
        assert(kb <= ka) by {
            lemma_filter_key_sub(t2, ka);
            let w = filter_key(t2, ka)[0];
            assert(t2.contains(w) && w.0 == ka);
            let wi = choose|i: int| 0 <= i < t2.len() && t2[i] == w;
            assert(t2[0].0 <= t2[wi].0);
        }
        assert(ka <= kb) by {
            lemma_filter_key_sub(t1, kb);
            let w = filter_key(t1, kb)[0];
            assert(t1.contains(w) && w.0 == kb);
            let wi = choose|i: int| 0 <= i < t1.len() && t1[i] == w;
            assert(t1[0].0 <= t1[wi].0);
        }
        assert(a == b);
        let r1 = t1.drop_first();
        let r2 = t2.drop_first();
        lemma_sorted_drop_first(t1);
        lemma_sorted_drop_first(t2);
        assert forall|k: u64| #[trigger] filter_key(r1, k) == filter_key(r2, k) by {
            if k == ka {
                let f1 = filter_key(r1, k);
                let f2 = filter_key(r2, k);
                assert(seq![a] + f1 == seq![a] + f2);
                assert(f1 =~= f2) by {
                    assert forall|i: int| 0 <= i < f1.len() implies f1[i] == f2[i] by {
                        assert((seq![a] + f1)[i + 1] == f1[i]);
                        assert((seq![a] + f2)[i + 1] == f2[i]);
                    }
                }
            } else {
                assert(filter_key(t1, k) == filter_key(r1, k));
                assert(filter_key(t2, k) == filter_key(r2, k));
            }
        }
        lemma_sorted_runs_unique(r1, r2);
        assert(t1 =~= t2) by {
            assert(t1 =~= seq![a] + r1);
            assert(t2 =~= seq![a] + r2);
        }
    }
}

/// One decimal digit as its character.
pub open spec fn digit_char(d: nat) -> char {
    if d == 0 {
        '0'
    } else if d == 1 {
        '1'
    } else if d == 2 {
        '2'
    } else if d == 3 {
        '3'
    } else if d == 4 {
        '4'
    } else if d == 5 {
        '5'
    } else if d == 6 {
        '6'
    } else if d == 7 {
        '7'
    } else if d == 8 {
        '8'
    } else {
        '9'
    }
}

/// The decimal digit characters of `n`, most significant first.
pub open spec fn dec_digits(n: nat) -> Seq<char>
    decreases n,
{
    if n < 10 {
        seq![digit_char(n)]
    } else {
        dec_digits(n / 10).push(digit_char(n % 10))
    }
}

/// One entry rendered for diagnostics: `(key, value)` in decimal.
pub open spec fn render_entry(e: Entry) -> Seq<char> {
    "("@ + dec_digits(e.0 as nat) + ", "@ + dec_digits(e.1 as nat) + ")"@
}

/// Entries rendered for diagnostics, separated by `", "`.
pub open spec fn render_entries(s: Seq<Entry>) -> Seq<char>
    decreases s.len(),
{
    if s.len() == 0 {
        Seq::empty()
    } else if s.len() == 1 {
        render_entry(s[0])
    } else {
        render_entry(s[0]) + ", "@ + render_entries(s.drop_first())
    }
}

/// A bracketed, comma-separated listing of entries.
pub open spec fn render_entry_listing(s: Seq<Entry>) -> Seq<char> {
    "["@ + render_entries(s) + "]"@
}

/// Values rendered for diagnostics, separated by `", "`.
pub open spec fn render_values(s: Seq<u64>) -> Seq<char>
    decreases s.len(),
{
    if s.len() == 0 {
        Seq::empty()
    } else if s.len() == 1 {
        dec_digits(s[0] as nat)
    } else {
        dec_digits(s[0] as nat) + ", "@ + render_values(s.drop_first())
    }
}

/// A bracketed, comma-separated listing of values.
pub open spec fn render_value_listing(s: Seq<u64>) -> Seq<char> {
    "["@ + render_values(s) + "]"@
}

/// Rendering entries one more at a time: the next entry joins at the back,
/// behind a separator unless it is the first.
pub proof fn lemma_render_entries_push(s: Seq<Entry>, e: Entry)
    ensures
        render_entries(s.push(e)) == if s.len() == 0 {
            render_entry(e)
        } else {
            render_entries(s) + ", "@ + render_entry(e)
        },
    decreases s.len(),
{
    let t = s.push(e);
    if s.len() == 0 {
        assert(t[0] == e);
    } else if s.len() == 1 {
        assert(t.drop_first() =~= seq![e]);
        assert(render_entries(seq![e]) == render_entry(e));
        assert(t[0] == s[0]);
    } else {
        assert(t.drop_first() =~= s.drop_first().push(e));
        lemma_render_entries_push(s.drop_first(), e);
        assert(t[0] == s[0]);
        assert(render_entry(s[0]) + ", "@ + (render_entries(s.drop_first()) + ", "@
            + render_entry(e)) =~= (render_entry(s[0]) + ", "@ + render_entries(s.drop_first()))
            + ", "@ + render_entry(e));
    }
}

/// Rendering values one more at a time: the next value joins at the back,
/// behind a separator unless it is the first.
pub proof fn lemma_render_values_push(s: Seq<u64>, v: u64)
    ensures
        render_values(s.push(v)) == if s.len() == 0 {
            dec_digits(v as nat)
        } else {
            render_values(s) + ", "@ + dec_digits(v as nat)
        },
    decreases s.len(),
{
    let t = s.push(v);
    if s.len() == 0 {
        assert(t[0] == v);
    } else if s.len() == 1 {
        assert(t.drop_first() =~= seq![v]);
        assert(render_values(seq![v]) == dec_digits(v as nat));
        assert(t[0] == s[0]);
    } else {
        assert(t.drop_first() =~= s.drop_first().push(v));
        lemma_render_values_push(s.drop_first(), v);
        assert(t[0] == s[0]);
        assert(dec_digits(s[0] as nat) + ", "@ + (render_values(s.drop_first()) + ", "@
            + dec_digits(v as nat)) =~= (dec_digits(s[0] as nat) + ", "@ + render_values(
            s.drop_first(),
        )) + ", "@ + dec_digits(v as nat));
    }
}

} // verus!
