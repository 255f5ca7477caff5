//! Expansion state: a mapping from paths to an "expanded" flag.
//!
//! Absence of an entry means collapsed; entries appear lazily on the first
//! toggle, so the first click on any row always expands it. The store is
//! created once per opened document and reset when another document replaces
//! it.

use crate::path::{Path, Step};
use vstd::prelude::*;

verus! {

/// The expanded flag a path maps to, with absence meaning collapsed.
pub open spec fn lookup(m: Map<Seq<Step>, bool>, k: Seq<Step>) -> bool {
    m.contains_key(k) && m[k]
}

/// Per-path expand/collapse state, keyed by the path's step sequence.
pub struct ExpansionStore {
    entries: Vec<(Path, bool)>,
}

pub open spec fn entries_map(s: Seq<(Path, bool)>) -> Map<Seq<Step>, bool>
    decreases s.len(),
{
    if s.len() == 0 {
        Map::empty()
    } else {
        entries_map(s.drop_last()).insert(s.last().0@, s.last().1)
    }
}

impl View for ExpansionStore {
    type V = Map<Seq<Step>, bool>;

    closed spec fn view(&self) -> Map<Seq<Step>, bool> {
        entries_map(self.entries@)
    }
}

spec fn unique_keys(s: Seq<(Path, bool)>) -> bool {
    forall|i: int, j: int| 0 <= i < j < s.len() ==> s[i].0@ != s[j].0@
}

proof fn lemma_entries_map_keys(s: Seq<(Path, bool)>, k: Seq<Step>)
    ensures
        entries_map(s).contains_key(k) <==> exists|i: int| 0 <= i < s.len() && s[i].0@ == k,
    decreases s.len(),
{
    if s.len() > 0 {
        lemma_entries_map_keys(s.drop_last(), k);
        if entries_map(s).contains_key(k) {
            if s.last().0@ == k {
                assert(s[s.len() - 1].0@ == k);
            } else {
                let i = choose|i: int| 0 <= i < s.drop_last().len() && s.drop_last()[i].0@ == k;
                assert(s[i].0@ == k);
            }
        }
        if exists|i: int| 0 <= i < s.len() && s[i].0@ == k {
            let i = choose|i: int| 0 <= i < s.len() && s[i].0@ == k;
            if i < s.len() - 1 {
                assert(s.drop_last()[i].0@ == k);
            }
        }
    }
}

proof fn lemma_entries_map_value(s: Seq<(Path, bool)>, i: int)
    requires
        unique_keys(s),
        0 <= i < s.len(),
    ensures
        entries_map(s).contains_key(s[i].0@),
        entries_map(s)[s[i].0@] == s[i].1,
    decreases s.len(),
{
    if i == s.len() - 1 {
    } else {
        assert(unique_keys(s.drop_last()));
        assert(s.drop_last()[i] == s[i]);
        lemma_entries_map_value(s.drop_last(), i);
        assert(s[i].0@ != s[s.len() - 1].0@);
    }
}

proof fn lemma_entries_map_update(s: Seq<(Path, bool)>, i: int, e: (Path, bool))
    requires
        unique_keys(s),
        0 <= i < s.len(),
        e.0@ == s[i].0@,
    ensures
        entries_map(s.update(i, e)) =~= entries_map(s).insert(e.0@, e.1),
    decreases s.len(),
{
    let t = s.update(i, e);
    if i == s.len() - 1 {
        assert(t.drop_last() =~= s.drop_last());
        assert(t.last() == e);
    } else {
        assert(t.drop_last() =~= s.drop_last().update(i, e));
        assert(unique_keys(s.drop_last()));
        assert(s.drop_last()[i] == s[i]);
        lemma_entries_map_update(s.drop_last(), i, e);
        assert(t.last() == s.last());
        // The updated key differs from the last entry's key, so the two
        // inserts commute.
        assert(s[i].0@ != s[s.len() - 1].0@);
    }
}

impl ExpansionStore {
    /// Internal well-formedness: no path occurs twice in the entry list.
    pub closed spec fn inv(&self) -> bool {
        unique_keys(self.entries@)
    }

    /// A fresh store with every path collapsed.
    pub fn new() -> (store: ExpansionStore)
        ensures
            store.inv(),
            store@ == Map::<Seq<Step>, bool>::empty(),
    {
        ExpansionStore { entries: Vec::new() }
    }

    /// Forgets all state, as when a new document replaces the current one.
    pub fn reset(&mut self)
        ensures
            final(self).inv(),
            final(self)@ == Map::<Seq<Step>, bool>::empty(),
    {
        self.entries.clear();
    }

    fn find(&self, p: &Path) -> (r: Option<usize>)
        ensures
            match r {
                Some(i) => i < self.entries@.len() && self.entries@[i as int].0@ == p@,
                None => forall|j: int| 0 <= j < self.entries@.len() ==> self.entries@[j].0@ != p@,
            },
    {
        let mut i: usize = 0;
        while i < self.entries.len()
            invariant
                i <= self.entries@.len(),
                forall|j: int| 0 <= j < i ==> self.entries@[j].0@ != p@,
            decreases self.entries@.len() - i,
        {
            if self.entries[i].0 == *p {
                return Some(i);
            }
            i = i + 1;
        }
        None
    }

    /// Whether the row at path `p` is currently expanded; paths never toggled
    /// are collapsed.
    pub fn is_expanded(&self, p: &Path) -> (b: bool)
        requires
            self.inv(),
        ensures
            b == lookup(self@, p@),
    {
        match self.find(p) {
            Some(i) => {
                proof {
                    lemma_entries_map_value(self.entries@, i as int);
                }
                self.entries[i].1
            },
            None => {
                proof {
                    lemma_entries_map_keys(self.entries@, p@);
                }
                false
            },
        }
    }

    /// Flips the stored flag for `p`, treating an absent entry as collapsed,
    /// so the first toggle of any path expands it. No other path's state is
    /// affected.
    pub fn toggle(&mut self, p: &Path)
        requires
            old(self).inv(),
        ensures
            final(self).inv(),
            final(self)@ == old(self)@.insert(p@, !lookup(old(self)@, p@)),
            lookup(final(self)@, p@) == !lookup(old(self)@, p@),
            forall|q: Seq<Step>| q != p@ ==> lookup(final(self)@, q) == lookup(old(self)@, q),
    {
        let ghost s0 = self.entries@;
        match self.find(p) {
            Some(i) => {
                proof {
                    lemma_entries_map_value(s0, i as int);
                }
                let flipped = !self.entries[i].1;
                let entry = (p.clone(), flipped);
                proof {
                    lemma_entries_map_update(s0, i as int, (entry.0, entry.1));
                }
                self.entries.set(i, entry);
                proof {
                    assert(unique_keys(self.entries@)) by {
                        assert(forall|j: int|
                            0 <= j < self.entries@.len() && j != i ==> self.entries@[j]
                                == s0[j]);
                    }
                }
            },
            None => {
                proof {
                    lemma_entries_map_keys(s0, p@);
                }
                let entry = (p.clone(), true);
                self.entries.push(entry);
                proof {
                    assert(self.entries@.drop_last() =~= s0);
                    assert(unique_keys(self.entries@)) by {
                        assert(forall|j: int| 0 <= j < s0.len() ==> self.entries@[j] == s0[j]);
                    }
                }
            },
        }
    }
}

} // verus!
