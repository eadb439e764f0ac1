//! Read-only traversal views over a store's key and value columns: the full
//! traversal, a bounded sub-range, and the values of a single key. Each view
//! borrows the columns and advances a cursor; none copies or mutates them.

use vstd::prelude::*;

use crate::model::Entry;
use crate::model::dec_digits;
use crate::model::lemma_render_entries_push;
use crate::model::lemma_render_values_push;
use crate::model::render_entries;
use crate::model::render_entry_listing;
use crate::model::render_value_listing;
use crate::model::render_values;
use crate::model::zip_entries;
use vstd::string::StringExecFns;

verus! {

/// Traversal over all stored `(key, value)` entries, in storage order.
#[derive(Clone, Copy, Debug)]
pub struct Tuples<'a> {
    keys: &'a Vec<u64>,
    values: &'a Vec<u64>,
    index: usize,
}

impl<'a> Tuples<'a> {
    /// The columns are parallel and the cursor is inside them.
    pub closed spec fn wf(self) -> bool {
        &&& self.keys@.len() == self.values@.len()
        &&& self.index <= self.keys@.len()
    }

    pub(crate) fn new(keys: &'a Vec<u64>, values: &'a Vec<u64>) -> (r: Tuples<'a>)
        requires
            keys@.len() == values@.len(),
        ensures
            r.wf(),
            r@ == zip_entries(keys@, values@),
    {
        let r = Tuples { keys, values, index: 0 };
        proof {
            assert(r@ =~= zip_entries(keys@, values@));
        }
        r
    }

    /// The next entry, advancing the cursor past it.
    pub fn next(&mut self) -> (r: Option<Entry>)
        requires
            old(self).wf(),
        ensures
            final(self).wf(),
            old(self)@.len() == 0 ==> r is None && final(self)@ == old(self)@,
            old(self)@.len() > 0 ==> r == Some(old(self)@[0]) && final(self)@ == old(
                self,
            )@.drop_first(),
    {
        if self.index < self.keys.len() {
            let k = self.keys[self.index];
            let v = self.values[self.index];
            self.index = self.index + 1;
            proof {
                assert(final(self)@ =~= old(self)@.drop_first());
            }
            Some((k, v))
        } else {
            None
        }
    }

    /// Renders the remaining entries for diagnostics: a bracketed,
    /// comma-separated listing in traversal order. The traversal itself is
    /// not advanced.
    pub fn debug_string(&self) -> (s: String)
        requires
            self.wf(),
        ensures
            s@ == render_entry_listing(self@),
    {
        let mut out = String::new();
        out.append("[");
        let n = self.keys.len();
        let mut i = self.index;
        proof {
            assert(self@.take(0) =~= Seq::<Entry>::empty());
            assert(out@ =~= "["@ + render_entries(self@.take(0)));
        }
        while i < n
            invariant
                self.wf(),
                self.index <= i <= n,
                n == self.keys@.len(),
                out@ == "["@ + render_entries(self@.take(i - self.index)),
            decreases n - i,
        {
            if i > self.index {
                out.append(", ");
            }
            out.append("(");
            let rendered_key = u64_to_string(self.keys[i]);
            out.append(rendered_key.as_str());
            out.append(", ");
            let rendered_value = u64_to_string(self.values[i]);
            out.append(rendered_value.as_str());
            out.append(")");
            proof {
                let k = i - self.index;
                assert(self@[k as int] == (self.keys@[i as int], self.values@[i as int]));
                assert(self@.take(k + 1) =~= self@.take(k as int).push(self@[k as int]));
                lemma_render_entries_push(self@.take(k as int), self@[k as int]);
                assert(out@ =~= "["@ + render_entries(self@.take(k + 1)));
            }
            i = i + 1;
        }
        out.append("]");
        proof {
            assert(self@.take(self@.len() as int) =~= self@);
        }
        out
    }

    /// How many entries remain: an exact count, given twice.
    pub fn size_hint(&self) -> (r: (usize, Option<usize>))
        requires
            self.wf(),
        ensures
            r.0 == self@.len(),
            r.1 == Some(r.0),
    {
        let remaining = self.keys.len() - self.index;
        (remaining, Some(remaining))
    }
}

impl<'a> View for Tuples<'a> {
    type V = Seq<Entry>;

    /// The entries the traversal has yet to yield.
    closed spec fn view(&self) -> Seq<Entry> {
        zip_entries(self.keys@, self.values@).skip(self.index as int)
    }
}

/// Traversal over the entries of a contiguous sub-range of the store.
#[derive(Clone, Copy, Debug)]
pub struct Range<'a> {
    keys: &'a Vec<u64>,
    values: &'a Vec<u64>,
    index: usize,
    end: usize,
}

impl<'a> Range<'a> {
    /// The columns are parallel and the cursor runs inside the sub-range.
    pub closed spec fn wf(self) -> bool {
        &&& self.keys@.len() == self.values@.len()
        &&& self.index <= self.end <= self.keys@.len()
    }

    pub(crate) fn new(keys: &'a Vec<u64>, values: &'a Vec<u64>, start: usize, end: usize) -> (r:
        Range<'a>)
        requires
            keys@.len() == values@.len(),
            start <= end <= keys@.len(),
        ensures
            r.wf(),
            r@ == zip_entries(keys@, values@).subrange(start as int, end as int),
    {
        Range { keys, values, index: start, end }
    }

    /// The next entry of the sub-range, advancing the cursor past it.
    pub fn next(&mut self) -> (r: Option<Entry>)
        requires
            old(self).wf(),
        ensures
            final(self).wf(),
            old(self)@.len() == 0 ==> r is None && final(self)@ == old(self)@,
            old(self)@.len() > 0 ==> r == Some(old(self)@[0]) && final(self)@ == old(
                self,
            )@.drop_first(),
    {
        if self.index < self.end {
            let k = self.keys[self.index];
            let v = self.values[self.index];
            self.index = self.index + 1;
            proof {
                assert(final(self)@ =~= old(self)@.drop_first());
            }
            Some((k, v))
        } else {
            proof {
                assert(final(self)@ =~= old(self)@);
            }
            None
        }
    }

    /// Renders the remaining entries of the sub-range for diagnostics: a
    /// bracketed, comma-separated listing in traversal order. The traversal
    /// itself is not advanced.
    pub fn debug_string(&self) -> (s: String)
        requires
            self.wf(),
        ensures
            s@ == render_entry_listing(self@),
    {
        let mut out = String::new();
        out.append("[");
        let mut i = self.index;
        proof {
            assert(self@.take(0) =~= Seq::<Entry>::empty());
            assert(out@ =~= "["@ + render_entries(self@.take(0)));
        }
        while i < self.end
            invariant
                self.wf(),
                self.index <= i <= self.end,
                out@ == "["@ + render_entries(self@.take(i - self.index)),
            decreases self.end - i,
        {
            if i > self.index {
                out.append(", ");
            }
            out.append("(");
            let rendered_key = u64_to_string(self.keys[i]);
            out.append(rendered_key.as_str());
            out.append(", ");
            let rendered_value = u64_to_string(self.values[i]);
            out.append(rendered_value.as_str());
            out.append(")");
            proof {
                let k = i - self.index;
                assert(self@[k as int] == (self.keys@[i as int], self.values@[i as int]));
                assert(self@.take(k + 1) =~= self@.take(k as int).push(self@[k as int]));
                lemma_render_entries_push(self@.take(k as int), self@[k as int]);
                assert(out@ =~= "["@ + render_entries(self@.take(k + 1)));
            }
            i = i + 1;
        }
        out.append("]");
        proof {
            assert(self@.take(self@.len() as int) =~= self@);
        }
        out
    }
}

impl<'a> View for Range<'a> {
    type V = Seq<Entry>;

    /// The entries the traversal has yet to yield.
    closed spec fn view(&self) -> Seq<Entry> {
        zip_entries(self.keys@, self.values@).subrange(self.index as int, self.end as int)
    }
}

/// Traversal over the values stored under one key, in insertion order: a
/// contiguous view of the value column.
#[derive(Clone, Copy, Debug)]
pub struct ValuesOf<'a> {
    values: &'a Vec<u64>,
    index: usize,
    end: usize,
}

impl<'a> ValuesOf<'a> {
    /// The cursor runs inside the sub-range of the value column.
    pub closed spec fn wf(self) -> bool {
        self.index <= self.end <= self.values@.len()
    }

    pub(crate) fn new(values: &'a Vec<u64>, start: usize, end: usize) -> (r: ValuesOf<'a>)
        requires
            start <= end <= values@.len(),
        ensures
            r.wf(),
            r@ == values@.subrange(start as int, end as int),
    {
        ValuesOf { values, index: start, end }
    }

    /// The next value under the key, advancing the cursor past it.
    pub fn next(&mut self) -> (r: Option<u64>)
        requires
            old(self).wf(),
        ensures
            final(self).wf(),
            old(self)@.len() == 0 ==> r is None && final(self)@ == old(self)@,
            old(self)@.len() > 0 ==> r == Some(old(self)@[0]) && final(self)@ == old(
                self,
            )@.drop_first(),
    {
        if self.index < self.end {
            let v = self.values[self.index];
            self.index = self.index + 1;
            proof {
                assert(final(self)@ =~= old(self)@.drop_first());
            }
            Some(v)
        } else {
            proof {
                assert(final(self)@ =~= old(self)@);
            }
            None
        }
    }

    /// Renders the remaining values for diagnostics: a bracketed,
    /// comma-separated listing in traversal order. The traversal itself is
    /// not advanced.
    pub fn debug_string(&self) -> (s: String)
        requires
            self.wf(),
        ensures
            s@ == render_value_listing(self@),
    {
        let mut out = String::new();
        out.append("[");
        let mut i = self.index;
        proof {
            assert(self@.take(0) =~= Seq::<u64>::empty());
            assert(out@ =~= "["@ + render_values(self@.take(0)));
        }
        while i < self.end
            invariant
                self.wf(),
                self.index <= i <= self.end,
                out@ == "["@ + render_values(self@.take(i - self.index)),
            decreases self.end - i,
        {
            if i > self.index {
                out.append(", ");
            }
            let rendered_value = u64_to_string(self.values[i]);
            out.append(rendered_value.as_str());
            proof {
                let k = i - self.index;
                assert(self@[k as int] == self.values@[i as int]);
                assert(self@.take(k + 1) =~= self@.take(k as int).push(self@[k as int]));
                lemma_render_values_push(self@.take(k as int), self@[k as int]);
                assert(out@ =~= "["@ + render_values(self@.take(k + 1)));
            }
            i = i + 1;
        }
        out.append("]");
        proof {
            assert(self@.take(self@.len() as int) =~= self@);
        }
        out
    }
}

impl<'a> View for ValuesOf<'a> {
    type V = Seq<u64>;

    /// The values the traversal has yet to yield.
    closed spec fn view(&self) -> Seq<u64> {
        self.values@.subrange(self.index as int, self.end as int)
    }
}

/// Relies on `u64`'s `Display` implementation, through `format!`: it writes
/// exactly the decimal digits of the number.
#[verifier::external_body]
fn u64_to_string(n: u64) -> (s: String)
    ensures
        s@ == dec_digits(n as nat),
{
    format!("{}", n)
}

} // verus!
