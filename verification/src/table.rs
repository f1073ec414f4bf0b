//! The registry's backing store: a map from promise identifiers to records,
//! kept as a vector of entries with pairwise-distinct keys.

use crate::id::PromiseId;
use vstd::prelude::*;

verus! {

/// An association table keyed by [`PromiseId`], viewed as a `Map`.
pub struct Table<V> {
    entries: Vec<(PromiseId, V)>,
}

/// The map described by a sequence of entries; a later entry would shadow an
/// earlier one, but well-formed tables have distinct keys.
spec fn spec_entry_map<V>(s: Seq<(PromiseId, V)>) -> Map<PromiseId, V>
    decreases s.len(),
{
    if s.len() == 0 {
        Map::empty()
    } else {
        spec_entry_map(s.drop_last()).insert(s.last().0, s.last().1)
    }
}

impl<V> Table<V> {
    /// The table as a map.
    pub closed spec fn view(self) -> Map<PromiseId, V> {
        spec_entry_map(self.entries@)
    }

    /// Keys are pairwise distinct.
    pub closed spec fn wf(self) -> bool {
        &&& forall|i: int, j: int|
            0 <= i < j < self.entries@.len() ==> (#[trigger] self.entries@[i]).0 != (
            #[trigger] self.entries@[j]).0
        &&& self@.dom().finite()
        &&& self@.dom().len() == self.entries@.len()
    }

    proof fn lemma_map_domain(s: Seq<(PromiseId, V)>)
        ensures
            forall|id: PromiseId|
                #[trigger] spec_entry_map(s).dom().contains(id) <==> exists|i: int|
                    0 <= i < s.len() && (#[trigger] s[i]).0 == id,
        decreases s.len(),
    {
        if s.len() > 0 {
            Self::lemma_map_domain(s.drop_last());
            assert forall|id: PromiseId| #[trigger]
                spec_entry_map(s).dom().contains(id) implies exists|i: int|
                0 <= i < s.len() && (#[trigger] s[i]).0 == id by {
                if id == s.last().0 {
                    assert(s[s.len() - 1].0 == id);
                } else {
                    assert(spec_entry_map(s.drop_last()).dom().contains(id));
                    let i = choose|i: int|
                        0 <= i < s.drop_last().len() && (#[trigger] s.drop_last()[i]).0 == id;
                    assert(s.drop_last()[i] == s[i]);
                    assert(s[i].0 == id);
                }
            }
            assert forall|id: PromiseId|
                exists|i: int| 0 <= i < s.len() && (#[trigger] s[i]).0 == id implies #[trigger]
                spec_entry_map(s).dom().contains(id) by {
                let i = choose|i: int| 0 <= i < s.len() && (#[trigger] s[i]).0 == id;
                if i < s.len() - 1 {
                    assert(s.drop_last()[i].0 == id);
                    assert(spec_entry_map(s.drop_last()).dom().contains(id));
                } else {
                    assert(id == s.last().0);
                }
            }
        }
    }

    /// In a well-formed table each entry shows through to the map unshadowed.
    proof fn lemma_map_entries(s: Seq<(PromiseId, V)>)
        requires
            forall|i: int, j: int|
                0 <= i < j < s.len() ==> (#[trigger] s[i]).0 != (#[trigger] s[j]).0,
        ensures
            forall|i: int|
                0 <= i < s.len() ==> spec_entry_map(s).dom().contains((#[trigger] s[i]).0)
                    && spec_entry_map(s)[s[i].0] == s[i].1,
        decreases s.len(),
    {
        if s.len() > 0 {
            Self::lemma_map_entries(s.drop_last());
            Self::lemma_map_domain(s.drop_last());
            assert forall|i: int|
                0 <= i < s.len() implies spec_entry_map(s).dom().contains((#[trigger] s[i]).0)
                && spec_entry_map(s)[s[i].0] == s[i].1 by {
                if i < s.len() - 1 {
                    assert(s.drop_last()[i] == s[i]);
                    assert(s[i].0 != s.last().0);
                }
            }
        }
    }

    /// A well-formed table's domain is finite.
    pub proof fn lemma_dom_finite(self)
        requires
            self.wf(),
        ensures
            self@.dom().finite(),
    {
    }

    /// An empty table.
    pub fn new() -> (t: Table<V>)
        ensures
            t.wf(),
            t@ == Map::<PromiseId, V>::empty(),
    {
        Table { entries: Vec::new() }
    }

    /// The position of `id` among the entries, if present.
    fn find(&self, id: PromiseId) -> (r: Option<usize>)
        ensures
            match r {
                Some(i) => i < self.entries@.len() && self.entries@[i as int].0 == id,
                None => forall|i: int|
                    0 <= i < self.entries@.len() ==> (#[trigger] self.entries@[i]).0 != id,
            },
    {
        let mut i: usize = 0;
        while i < self.entries.len()
            invariant
                i <= self.entries@.len(),
                forall|j: int| 0 <= j < i ==> (#[trigger] self.entries@[j]).0 != id,
            decreases self.entries@.len() - i,
        {
            if self.entries[i].0 == id {
                return Some(i);
            }
            i = i + 1;
        }
        None
    }

    /// Whether `id` is present.
    pub fn contains(&self, id: PromiseId) -> (b: bool)
        requires
            self.wf(),
        ensures
            b == self@.dom().contains(id),
    {
        proof {
            Self::lemma_map_domain(self.entries@);
        }
        self.find(id).is_some()
    }

    /// Insert a fresh key.
    pub fn insert(&mut self, id: PromiseId, v: V)
        requires
            old(self).wf(),
            !old(self)@.dom().contains(id),
        ensures
            final(self).wf(),
            final(self)@ == old(self)@.insert(id, v),
    {
        proof {
            Self::lemma_map_domain(self.entries@);
        }
        self.entries.push((id, v));
        proof {
            assert(self.entries@.drop_last() =~= old(self).entries@);
        }
    }

    /// Remove a key, returning its record if it was present.
    pub fn remove(&mut self, id: PromiseId) -> (r: Option<V>)
        requires
            old(self).wf(),
        ensures
            final(self).wf(),
            match r {
                Some(v) => old(self)@.dom().contains(id) && v == old(self)@[id] && final(self)@
                    == old(self)@.remove(id),
                None => !old(self)@.dom().contains(id) && *final(self) == *old(self),
            },
    {
        proof {
            Self::lemma_map_domain(self.entries@);
            Self::lemma_map_entries(self.entries@);
        }
        match self.find(id) {
            Some(i) => {
                let (_, v) = self.entries.swap_remove(i);
                proof {
                    Self::lemma_swap_remove_map(old(self).entries@, i as int);
                }
                Some(v)
            },
            None => None,
        }
    }

    /// Removing entry `i` from a well-formed sequence by swapping in the last
    /// entry removes exactly that key from the map.
    proof fn lemma_swap_remove_map(s: Seq<(PromiseId, V)>, i: int)
        requires
            0 <= i < s.len(),
            forall|a: int, b: int|
                0 <= a < b < s.len() ==> (#[trigger] s[a]).0 != (#[trigger] s[b]).0,
        ensures
            spec_entry_map(s.update(i, s.last()).drop_last()) == spec_entry_map(s).remove(s[i].0),
    {
        let t = s.update(i, s.last()).drop_last();
        Self::lemma_map_domain(s);
        Self::lemma_map_entries(s);
        Self::lemma_map_domain(t);
        assert(forall|a: int, b: int|
            0 <= a < b < t.len() ==> (#[trigger] t[a]).0 != (#[trigger] t[b]).0);
        Self::lemma_map_entries(t);
        assert forall|id: PromiseId| true implies #[trigger] spec_entry_map(t).dom().contains(id)
            == spec_entry_map(s).remove(s[i].0).dom().contains(id) by {
            if spec_entry_map(t).dom().contains(id) {
                let a = choose|a: int| 0 <= a < t.len() && (#[trigger] t[a]).0 == id;
                if a == i && i < s.len() - 1 {
                    assert(s[s.len() - 1].0 == id);
                } else {
                    assert(s[a].0 == id);
                }
            }
            if spec_entry_map(s).remove(s[i].0).dom().contains(id) {
                let a = choose|a: int| 0 <= a < s.len() && (#[trigger] s[a]).0 == id;
                if a == s.len() - 1 {
                    if i < s.len() - 1 {
                        assert(t[i].0 == id);
                    }
                } else if a != i {
                    assert(t[a].0 == id);
                }
            }
        }
        assert forall|id: PromiseId| spec_entry_map(t).dom().contains(id) implies #[trigger]
            spec_entry_map(t)[id] == spec_entry_map(s).remove(s[i].0)[id] by {
            let a = choose|a: int| 0 <= a < t.len() && (#[trigger] t[a]).0 == id;
            if a == i && i < s.len() - 1 {
                assert(s[s.len() - 1].0 == id);
            } else {
                assert(s[a].0 == id && s[a].1 == t[a].1);
            }
        }
        assert(spec_entry_map(t) =~= spec_entry_map(s).remove(s[i].0));
    }

    /// The number of pending entries.
    pub fn len(&self) -> (n: usize)
        requires
            self.wf(),
        ensures
            n == self@.dom().len(),
            n == 0 ==> self@ == Map::<PromiseId, V>::empty(),
    {
        proof {
            Self::lemma_len(self.entries@);
            if self.entries@.len() == 0 {
                assert(self@ =~= Map::<PromiseId, V>::empty());
            }
        }
        self.entries.len()
    }

    proof fn lemma_len(s: Seq<(PromiseId, V)>)
        requires
            forall|a: int, b: int|
                0 <= a < b < s.len() ==> (#[trigger] s[a]).0 != (#[trigger] s[b]).0,
        ensures
            spec_entry_map(s).dom().len() == s.len(),
            spec_entry_map(s).dom().finite(),
        decreases s.len(),
    {
        if s.len() > 0 {
            Self::lemma_len(s.drop_last());
            Self::lemma_map_domain(s.drop_last());
        }
    }
}

} // verus!
