use vstd::prelude::*;
use crate::flatmap::has_key;

verus! {

/// Whether every key occurs at most once.
pub open spec fn unique_keys<V>(s: Seq<(u64, V)>) -> bool {
    forall|i: int, j: int|
        0 <= i < j < s.len() ==> (#[trigger] s[i]).0 != (#[trigger] s[j]).0
}

/// A bounded map from integer keys to values that evicts the entry
/// used least recently; the entries sit in recency order, the most
/// recently used first.
pub struct LRUCache<V> {
    entries: Vec<(u64, V)>,
    capacity: usize,
}

impl<V> LRUCache<V> {
    /// The entries, most recently used first.
    pub closed spec fn spec_entries(self) -> Seq<(u64, V)> {
        self.entries@
    }

    /// The number of entries the cache can hold.
    pub closed spec fn spec_capacity(self) -> nat {
        self.capacity as nat
    }

    /// Keys are unique and the capacity is kept.
    pub open spec fn wf(self) -> bool {
        &&& unique_keys(self.spec_entries())
        &&& self.spec_entries().len() <= self.spec_capacity()
        &&& self.spec_capacity() >= 1
    }

    /// An empty cache that can hold `capacity` entries.
    pub fn new(capacity: usize) -> (r: Self)
        requires
            capacity >= 1,
        ensures
            r.wf(),
            r.spec_entries() == Seq::<(u64, V)>::empty(),
            r.spec_capacity() == capacity,
    {
        LRUCache { entries: Vec::new(), capacity }
    }

    /// The index of `key`, when the cache holds it.
    fn find(&self, key: u64) -> (r: Option<usize>)
        ensures
            match r {
                Some(i) => i < self.spec_entries().len() && self.spec_entries()[i as int].0
                    == key,
                None => !has_key(self.spec_entries(), key),
            },
    {
        let mut i: usize = 0;
        while i < self.entries.len()
            invariant
                i <= self.spec_entries().len(),
                forall|j: int| 0 <= j < i ==> (#[trigger] self.spec_entries()[j]).0 != key,
            decreases self.spec_entries().len() - i,
        {
            if self.entries[i].0 == key {
                return Some(i);
            }
            i = i + 1;
        }
        None
    }

    /// Moves the entry at `index` to the front, keeping the others in
    /// order.
    fn move_to_head_by_index(&mut self, index: usize)
        requires
            index < old(self).spec_entries().len(),
        ensures
            final(self).spec_capacity() == old(self).spec_capacity(),
            final(self).spec_entries() == seq![old(self).spec_entries()[index as int]] + old(
                self,
            ).spec_entries().remove(index as int),
    {
        let entry = self.entries.remove(index);
        self.entries.insert(0, entry);
        proof {
            assert(self.entries@ =~= seq![old(self).spec_entries()[index as int]] + old(
                self,
            ).spec_entries().remove(index as int));
        }
    }

    /// The value under `key`; using it marks the entry as the most
    /// recent one.
    pub fn get(&mut self, key: &u64) -> (r: Option<&V>)
        requires
            old(self).wf(),
        ensures
            final(self).wf(),
            final(self).spec_capacity() == old(self).spec_capacity(),
            match r {
                Some(v) => exists|i: int|
                    {
                        &&& 0 <= i < old(self).spec_entries().len()
                        &&& (#[trigger] old(self).spec_entries()[i]) == (*key, *v)
                        &&& final(self).spec_entries() == seq![old(self).spec_entries()[i]]
                            + old(self).spec_entries().remove(i)
                    },
                None => {
                    &&& !has_key(old(self).spec_entries(), *key)
                    &&& final(self).spec_entries() == old(self).spec_entries()
                },
            },
    {
        let index = match self.find(*key) {
            Some(i) => i,
            None => {
                return None;
            },
        };
        self.move_to_head_by_index(index);
        proof {
            lemma_move_keeps_unique(old(self).spec_entries(), index as int);
        }
        Some(&self.entries[0].1)
    }

    /// Adds or refreshes the value under `key`, which becomes the most
    /// recent entry; a present key gives its old value back, and a
    /// fresh key evicts the least recent entry when the cache is full.
    pub fn insert(&mut self, key: u64, value: V) -> (r: Option<V>)
        requires
            old(self).wf(),
        ensures
            final(self).wf(),
            final(self).spec_capacity() == old(self).spec_capacity(),
            match r {
                Some(old_value) => exists|i: int|
                    {
                        &&& 0 <= i < old(self).spec_entries().len()
                        &&& (#[trigger] old(self).spec_entries()[i]).0 == key
                        &&& old_value == old(self).spec_entries()[i].1
                        &&& final(self).spec_entries() == seq![(key, value)] + old(
                            self,
                        ).spec_entries().remove(i)
                    },
                None => {
                    &&& !has_key(old(self).spec_entries(), key)
                    &&& final(self).spec_entries() == seq![(key, value)] + (if old(
                        self,
                    ).spec_entries().len() < old(self).spec_capacity() {
                        old(self).spec_entries()
                    } else {
                        old(self).spec_entries().drop_last()
                    })
                },
            },
    {
        let ghost s0 = self.spec_entries();
        match self.find(key) {
            Some(i) => {
                let mut pair = (key, value);
                core::mem::swap(&mut self.entries[i], &mut pair);
                proof {
                    assert(self.entries@ =~= s0.update(i as int, (key, value)));
                    lemma_update_keeps_unique(s0, i as int, (key, value));
                }
                self.move_to_head_by_index(i);
                proof {
                    lemma_move_keeps_unique(s0.update(i as int, (key, value)), i as int);
                    assert(seq![(key, value)] + s0.update(i as int, (key, value)).remove(i as int)
                        =~= seq![(key, value)] + s0.remove(i as int));
                }
                Some(pair.1)
            },
            None => {
                if self.entries.len() >= self.capacity {
                    // evict the least recently used entry
                    let last = self.entries.len() - 1;
                    self.entries.remove(last);
                    proof {
                        assert(self.entries@ =~= s0.drop_last());
                        lemma_prefix_keeps_unique(s0, s0.len() - 1);
                    }
                }
                let ghost trimmed = self.entries@;
                self.entries.insert(0, (key, value));
                proof {
                    assert(self.entries@ =~= seq![(key, value)] + trimmed);
                    assert forall|a: int, b: int|
                        0 <= a < b < self.entries@.len() implies (#[trigger] self.entries@[a]).0
                        != (#[trigger] self.entries@[b]).0 by {
                        if a == 0 {
                            assert(trimmed[b - 1].0 != key) by {
                                if trimmed[b - 1].0 == key {
                                    assert(s0[b - 1] == trimmed[b - 1]);
                                    assert(has_key(s0, key));
                                }
                            }
                        } else {
                            assert(trimmed[a - 1].0 != trimmed[b - 1].0);
                        }
                    }
                }
                None
            },
        }
    }
}

/// Updating an entry with another of the same key keeps keys unique.
proof fn lemma_update_keeps_unique<V>(s: Seq<(u64, V)>, i: int, e: (u64, V))
    requires
        unique_keys(s),
        0 <= i < s.len(),
        e.0 == s[i].0,
    ensures
        unique_keys(s.update(i, e)),
{
    assert forall|a: int, b: int|
        0 <= a < b < s.update(i, e).len() implies (#[trigger] s.update(i, e)[a]).0 != (
    #[trigger] s.update(i, e)[b]).0 by {
        assert(s[a].0 != s[b].0);
    }
}

/// Moving an entry to the front keeps keys unique.
proof fn lemma_move_keeps_unique<V>(s: Seq<(u64, V)>, i: int)
    requires
        unique_keys(s),
        0 <= i < s.len(),
    ensures
        unique_keys(seq![s[i]] + s.remove(i)),
{
    let t = seq![s[i]] + s.remove(i);
    assert forall|a: int, b: int|
        0 <= a < b < t.len() implies (#[trigger] t[a]).0 != (#[trigger] t[b]).0 by {
        let sa: int = if a == 0 {
            i
        } else if a - 1 < i {
            a - 1
        } else {
            a
        };
        let sb: int = if b - 1 < i {
            b - 1
        } else {
            b
        };
        assert(t[a] == s[sa]);
        assert(t[b] == s[sb]);
        if sa < sb {
            assert(s[sa].0 != s[sb].0);
        } else if sb < sa {
            assert(s[sb].0 != s[sa].0);
        }
    }
}

/// Dropping the last entry keeps keys unique.
proof fn lemma_prefix_keeps_unique<V>(s: Seq<(u64, V)>, k: int)
    requires
        unique_keys(s),
        0 <= k <= s.len(),
    ensures
        unique_keys(s.take(k)),
{
    assert forall|a: int, b: int|
        0 <= a < b < s.take(k).len() implies (#[trigger] s.take(k)[a]).0 != (
    #[trigger] s.take(k)[b]).0 by {
        assert(s[a].0 != s[b].0);
    }
}

} // verus!
