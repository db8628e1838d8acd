//! The combined header table: the frozen 61-entry static table and a
//! bounded dynamic table, virtualised into a single one-based index space.
//!
//! Index `i` in `[1, 61]` selects the static entry `i`; index `62 + k`
//! selects the `(k+1)`-th most recent dynamic insertion. Index 0 is never
//! a valid dereference. Each dynamic entry accounts for
//! `name.len() + value.len() + 32` octets, and the accounted total never
//! exceeds `max_size`.

use vstd::prelude::*;
use vstd::slice::slice_to_vec;
use crate::header::{bytes_eq, Header};
use crate::static_table::{build_static_table, headers_view, lemma_static_table_len, spec_static_table};

verus! {

/// Octets a dynamic entry accounts for: name length + value length + 32.
pub open spec fn entry_size(e: (Seq<u8>, Seq<u8>)) -> nat {
    e.0.len() + e.1.len() + 32
}

/// The accounted total of a dynamic table, newest entry first.
pub open spec fn total_size(entries: Seq<(Seq<u8>, Seq<u8>)>) -> nat
    decreases entries.len(),
{
    if entries.len() == 0 {
        0
    } else {
        entry_size(entries[0]) + total_size(entries.drop_first())
    }
}

/// Evicts entries from the oldest end (the back) until the total fits `max`.
pub open spec fn spec_evict(entries: Seq<(Seq<u8>, Seq<u8>)>, max: nat) -> Seq<(Seq<u8>, Seq<u8>)>
    decreases entries.len(),
{
    if total_size(entries) <= max {
        entries
    } else if entries.len() == 0 {
        entries
    } else {
        spec_evict(entries.drop_last(), max)
    }
}

/// Inserting into a dynamic table: the entry is prepended and old entries
/// are evicted from the back until the total fits; an entry that alone
/// exceeds the budget empties the table and is itself discarded.
pub open spec fn spec_insert(
    entries: Seq<(Seq<u8>, Seq<u8>)>,
    e: (Seq<u8>, Seq<u8>),
    max: nat,
) -> Seq<(Seq<u8>, Seq<u8>)> {
    if entry_size(e) > max {
        Seq::empty()
    } else {
        spec_evict(seq![e] + entries, max)
    }
}

/// The entry a combined index selects: static for `[1, 61]`, dynamic above.
pub open spec fn spec_table_entry(dynamic: Seq<(Seq<u8>, Seq<u8>)>, i: int) -> (Seq<u8>, Seq<u8>)
    recommends
        1 <= i <= 61 + dynamic.len(),
{
    if i <= 61 {
        spec_static_table()[i - 1]
    } else {
        dynamic[i - 62]
    }
}

/// Whether an entry matches a query: always on the name, and on the value
/// too when one is given.
pub open spec fn spec_entry_matches(
    e: (Seq<u8>, Seq<u8>),
    name: Seq<u8>,
    value: Option<Seq<u8>>,
) -> bool {
    e.0 == name && (match value {
        Some(v) => e.1 == v,
        None => true,
    })
}

/// The lowest combined index at or above `i` whose entry matches, if any.
pub open spec fn spec_search_from(
    dynamic: Seq<(Seq<u8>, Seq<u8>)>,
    name: Seq<u8>,
    value: Option<Seq<u8>>,
    i: int,
) -> Option<int>
    decreases 62 + dynamic.len() - i,
{
    if i < 1 || i > 61 + dynamic.len() {
        None
    } else if spec_entry_matches(spec_table_entry(dynamic, i), name, value) {
        Some(i)
    } else {
        spec_search_from(dynamic, name, value, i + 1)
    }
}

/// The lowest combined index whose entry has this name.
pub open spec fn spec_search_name(dynamic: Seq<(Seq<u8>, Seq<u8>)>, name: Seq<u8>) -> Option<int> {
    spec_search_from(dynamic, name, None, 1)
}

/// The lowest combined index whose entry has this name and this value.
pub open spec fn spec_search_exact(
    dynamic: Seq<(Seq<u8>, Seq<u8>)>,
    name: Seq<u8>,
    value: Seq<u8>,
) -> Option<int> {
    spec_search_from(dynamic, name, Some(value), 1)
}

/// A successful search names a valid combined index whose entry matches
/// the query.
pub proof fn lemma_search_from_found(
    dynamic: Seq<(Seq<u8>, Seq<u8>)>,
    name: Seq<u8>,
    value: Option<Seq<u8>>,
    j: int,
)
    ensures
        spec_search_from(dynamic, name, value, j) matches Some(i) ==> j <= i <= 61
            + dynamic.len() && spec_entry_matches(spec_table_entry(dynamic, i), name, value),
    decreases 62 + dynamic.len() - j,
{
    if 1 <= j <= 61 + dynamic.len() {
        if !spec_entry_matches(spec_table_entry(dynamic, j), name, value) {
            lemma_search_from_found(dynamic, name, value, j + 1);
        }
    }
}

/// Dropping the newest entry takes exactly its size off the total.
pub proof fn lemma_total_drop_last(entries: Seq<(Seq<u8>, Seq<u8>)>)
    requires
        entries.len() > 0,
    ensures
        total_size(entries) == total_size(entries.drop_last()) + entry_size(entries.last()),
    decreases entries.len(),
{
    if entries.len() == 1 {
        assert(entries.drop_last() =~= entries.drop_first());
        assert(entries.drop_first().len() == 0);
    } else {
        lemma_total_drop_last(entries.drop_first());
        assert(entries.drop_first().drop_last() =~= entries.drop_last().drop_first());
        assert(entries.drop_first().last() == entries.last());
    }
}

/// Prepending an entry adds exactly its size to the total.
pub proof fn lemma_total_prepend(e: (Seq<u8>, Seq<u8>), entries: Seq<(Seq<u8>, Seq<u8>)>)
    ensures
        total_size(seq![e] + entries) == entry_size(e) + total_size(entries),
{
    assert((seq![e] + entries).drop_first() =~= entries);
}

/// A table of `n` entries accounts for at least `32 * n` octets.
pub proof fn lemma_total_lower(entries: Seq<(Seq<u8>, Seq<u8>)>)
    ensures
        total_size(entries) >= 32 * entries.len(),
    decreases entries.len(),
{
    if entries.len() > 0 {
        lemma_total_lower(entries.drop_first());
    }
}

/// Eviction always reaches the budget (the table invariant's engine).
pub proof fn lemma_evict_total(entries: Seq<(Seq<u8>, Seq<u8>)>, max: nat)
    ensures
        total_size(spec_evict(entries, max)) <= max,
    decreases entries.len(),
{
    if total_size(entries) <= max {
    } else if entries.len() == 0 {
    } else {
        lemma_evict_total(entries.drop_last(), max);
    }
}

/// Evicting around a fitting front entry evicts the rest under the budget
/// that the front entry leaves over.
pub proof fn lemma_evict_prepend(
    e: (Seq<u8>, Seq<u8>),
    entries: Seq<(Seq<u8>, Seq<u8>)>,
    max: nat,
)
    requires
        entry_size(e) <= max,
    ensures
        spec_evict(seq![e] + entries, max) == seq![e] + spec_evict(
            entries,
            (max - entry_size(e)) as nat,
        ),
    decreases entries.len(),
{
    let whole = seq![e] + entries;
    let budget = (max - entry_size(e)) as nat;
    lemma_total_prepend(e, entries);
    if total_size(entries) <= budget {
        assert(spec_evict(entries, budget) == entries);
    } else {
        assert(entries.len() > 0);
        assert(whole.len() > 1);
        assert(whole.drop_last() =~= seq![e] + entries.drop_last());
        lemma_evict_prepend(e, entries.drop_last(), max);
    }
}

/// An entry that fits on its own always lands at the front — combined
/// index 62 — whatever was in the table before (index stability for
/// in-block references).
pub proof fn lemma_insert_front(
    entries: Seq<(Seq<u8>, Seq<u8>)>,
    e: (Seq<u8>, Seq<u8>),
    max: nat,
)
    requires
        entry_size(e) <= max,
    ensures
        spec_insert(entries, e, max).len() >= 1,
        spec_insert(entries, e, max)[0] == e,
        spec_table_entry(spec_insert(entries, e, max), 62) == e,
{
    lemma_evict_prepend(e, entries, max);
}

/// Insertion, like eviction, keeps the accounted total within the budget.
pub proof fn lemma_insert_total(
    entries: Seq<(Seq<u8>, Seq<u8>)>,
    e: (Seq<u8>, Seq<u8>),
    max: nat,
)
    ensures
        total_size(spec_insert(entries, e, max)) <= max,
{
    if entry_size(e) > max {
    } else {
        lemma_evict_total(seq![e] + entries, max);
    }
}

/// The combined static + dynamic table of one codec instance.
pub struct HeaderTable {
    /// The 61 frozen entries, as owned headers.
    pub static_entries: Vec<Header>,
    /// Dynamic entries, the most recent insertion first.
    pub dynamic_entries: Vec<Header>,
    /// The octet budget of the dynamic table.
    pub max_size: u64,
    /// The accounted total of the dynamic table, kept in step.
    pub size: u64,
}

impl HeaderTable {
    /// The dynamic table as a sequence of (name, value) pairs.
    pub open spec fn dyn_view(&self) -> Seq<(Seq<u8>, Seq<u8>)> {
        headers_view(self.dynamic_entries@)
    }

    /// Well-formedness: the static half is the RFC table, the cached size
    /// is the true total, and the total fits the budget.
    pub open spec fn wf(&self) -> bool {
        &&& headers_view(self.static_entries@) == spec_static_table()
        &&& self.size as nat == total_size(self.dyn_view())
        &&& self.size <= self.max_size
    }

    /// The highest valid combined index.
    pub open spec fn spec_combined_len(&self) -> int {
        61 + self.dyn_view().len() as int
    }

    /// A fresh table under the given octet budget.
    pub fn new(max_size: u64) -> (r: HeaderTable)
        ensures
            r.wf(),
            r.dyn_view() == Seq::<(Seq<u8>, Seq<u8>)>::empty(),
            r.max_size == max_size,
    {
        let r = HeaderTable {
            static_entries: build_static_table(),
            dynamic_entries: Vec::new(),
            max_size,
            size: 0,
        };
        proof {
            assert(r.dyn_view() =~= Seq::<(Seq<u8>, Seq<u8>)>::empty());
        }
        r
    }

    /// A fresh table under the protocol's default budget of 4096 octets.
    pub fn new_default() -> (r: HeaderTable)
        ensures
            r.wf(),
            r.dyn_view() == Seq::<(Seq<u8>, Seq<u8>)>::empty(),
            r.max_size == 4096,
    {
        HeaderTable::new(4096)
    }

    /// The entry a combined index selects, or `None` outside `[1, 61 + D]`.
    pub fn get(&self, i: u64) -> (r: Option<&Header>)
        requires
            self.wf(),
        ensures
            match r {
                Some(h) => 1 <= i <= self.spec_combined_len() && h@ == spec_table_entry(
                    self.dyn_view(),
                    i as int,
                ),
                None => !(1 <= i <= self.spec_combined_len()),
            },
    {
        proof {
            lemma_static_table_len();
            assert(self.static_entries@.len() == spec_static_table().len());
        }
        if 1 <= i && i <= 61 {
            let h = &self.static_entries[(i - 1) as usize];
            proof {
                assert(h@ == headers_view(self.static_entries@)[i - 1]);
            }
            Some(h)
        } else if 62 <= i && i - 62 < self.dynamic_entries.len() as u64 {
            let h = &self.dynamic_entries[(i - 62) as usize];
            proof {
                assert(h@ == self.dyn_view()[i - 62]);
            }
            Some(h)
        } else {
            None
        }
    }

    /// The lowest combined index holding this name, static entries first.
    pub fn search_with_name(&self, name: &[u8]) -> (r: Option<u64>)
        requires
            self.wf(),
        ensures
            match r {
                Some(i) => spec_search_name(self.dyn_view(), name@) == Some(i as int),
                None => spec_search_name(self.dyn_view(), name@) is None,
            },
    {
        proof {
            lemma_total_lower(self.dyn_view());
        }
        let n: u64 = 61 + self.dynamic_entries.len() as u64;
        let mut i: u64 = 1;
        while i <= n
            invariant
                self.wf(),
                n == 61 + self.dyn_view().len(),
                n < u64::MAX,
                1 <= i <= n + 1,
                spec_search_name(self.dyn_view(), name@) == spec_search_from(
                    self.dyn_view(),
                    name@,
                    None,
                    i as int,
                ),
            decreases n + 1 - i,
        {
            let e = self.get(i).unwrap();
            if bytes_eq(e.name.as_slice(), name) {
                return Some(i);
            }
            i = i + 1;
        }
        None
    }

    /// The lowest combined index holding this name and this value,
    /// static entries first.
    pub fn search_with_name_and_value(&self, name: &[u8], value: &[u8]) -> (r: Option<u64>)
        requires
            self.wf(),
        ensures
            match r {
                Some(i) => spec_search_exact(self.dyn_view(), name@, value@) == Some(i as int),
                None => spec_search_exact(self.dyn_view(), name@, value@) is None,
            },
    {
        proof {
            lemma_total_lower(self.dyn_view());
        }
        let n: u64 = 61 + self.dynamic_entries.len() as u64;
        let mut i: u64 = 1;
        while i <= n
            invariant
                self.wf(),
                n == 61 + self.dyn_view().len(),
                n < u64::MAX,
                1 <= i <= n + 1,
                spec_search_exact(self.dyn_view(), name@, value@) == spec_search_from(
                    self.dyn_view(),
                    name@,
                    Some(value@),
                    i as int,
                ),
            decreases n + 1 - i,
        {
            let e = self.get(i).unwrap();
            if bytes_eq(e.name.as_slice(), name) && bytes_eq(e.value.as_slice(), value) {
                return Some(i);
            }
            i = i + 1;
        }
        None
    }

    /// Evicts from the oldest end until the accounted total fits `budget`.
    fn evict_to(&mut self, budget: u64)
        requires
            old(self).size as nat == total_size(old(self).dyn_view()),
        ensures
            final(self).dyn_view() == spec_evict(old(self).dyn_view(), budget as nat),
            final(self).size as nat == total_size(final(self).dyn_view()),
            final(self).size <= budget,
            final(self).static_entries == old(self).static_entries,
            final(self).max_size == old(self).max_size,
    {
        while self.size > budget
            invariant
                self.size as nat == total_size(self.dyn_view()),
                spec_evict(old(self).dyn_view(), budget as nat) == spec_evict(
                    self.dyn_view(),
                    budget as nat,
                ),
                self.static_entries == old(self).static_entries,
                self.max_size == old(self).max_size,
            decreases self.dynamic_entries@.len(),
        {
            proof {
                if self.dynamic_entries@.len() == 0 {
                    assert(total_size(self.dyn_view()) == 0);
                }
                lemma_total_drop_last(self.dyn_view());
                assert(self.dyn_view().last() == self.dynamic_entries@.last()@);
            }
            let ghost pre = self.dyn_view();
            let last = self.dynamic_entries.pop().unwrap();
            proof {
                assert(self.dyn_view() =~= pre.drop_last());
            }
            let lsize: u64 = last.name.len() as u64 + last.value.len() as u64 + 32;
            self.size = self.size - lsize;
        }
        proof {
            assert(spec_evict(self.dyn_view(), budget as nat) == self.dyn_view());
        }
    }

    /// Prepends an entry, evicting from the oldest end to fit the budget;
    /// an entry that alone exceeds the budget empties the table and is
    /// discarded.
    pub fn add(&mut self, name: &[u8], value: &[u8])
        requires
            old(self).wf(),
        ensures
            final(self).wf(),
            final(self).max_size == old(self).max_size,
            final(self).dyn_view() == spec_insert(
                old(self).dyn_view(),
                (name@, value@),
                old(self).max_size as nat,
            ),
    {
        let ghost e = (name@, value@);
        let ghost max = self.max_size as nat;
        let fits: bool = if self.max_size < 32 {
            false
        } else if name.len() as u64 > self.max_size - 32 {
            false
        } else if value.len() as u64 > (self.max_size - 32) - name.len() as u64 {
            false
        } else {
            true
        };
        assert(fits == (entry_size(e) <= max));
        if !fits {
            self.dynamic_entries = Vec::new();
            self.size = 0;
            proof {
                assert(self.dyn_view() =~= Seq::<(Seq<u8>, Seq<u8>)>::empty());
            }
            return;
        }
        let esize: u64 = name.len() as u64 + value.len() as u64 + 32;
        let budget: u64 = self.max_size - esize;
        self.evict_to(budget);
        let ghost evicted = self.dyn_view();
        self.dynamic_entries.insert(0, Header { name: slice_to_vec(name), value: slice_to_vec(value) });
        self.size = self.size + esize;
        proof {
            assert(self.dyn_view() =~= seq![e] + evicted);
            lemma_total_prepend(e, evicted);
            lemma_evict_prepend(e, old(self).dyn_view(), max);
            assert(self.dyn_view() == spec_insert(old(self).dyn_view(), e, max));
        }
    }

    /// Installs a new octet budget, evicting from the oldest end until the
    /// table fits it; a budget of zero empties the table.
    pub fn set_max_size(&mut self, size: u64)
        requires
            old(self).wf(),
        ensures
            final(self).wf(),
            final(self).max_size == size,
            final(self).dyn_view() == spec_evict(old(self).dyn_view(), size as nat),
    {
        self.evict_to(size);
        self.max_size = size;
    }
}

} // verus!
