use vstd::prelude::*;

verus! {

/// Whether the pairs are sorted by strictly increasing key.
pub open spec fn sorted_by_key<V>(s: Seq<(u64, V)>) -> bool {
    forall|i: int, j: int| 0 <= i < j < s.len() ==> (#[trigger] s[i]).0 < (#[trigger] s[j]).0
}

/// Whether some pair carries the key.
pub open spec fn has_key<V>(s: Seq<(u64, V)>, key: u64) -> bool {
    exists|i: int| 0 <= i < s.len() && (#[trigger] s[i]).0 == key
}

/// The index of the first pair whose key is at least `key`, or the
/// length when every key is smaller.
pub open spec fn key_position<V>(s: Seq<(u64, V)>, key: u64) -> int
    decreases s.len(),
{
    if s.len() == 0 {
        0
    } else if s[0].0 >= key {
        0
    } else {
        1 + key_position(s.drop_first(), key)
    }
}

/// `key_position` lies within the sequence, everything before it has
/// a smaller key, and everything from it on has a key at least `key`.
pub proof fn lemma_key_position_bounds<V>(s: Seq<(u64, V)>, key: u64)
    ensures
        0 <= key_position(s, key) <= s.len(),
        forall|i: int| 0 <= i < key_position(s, key) ==> (#[trigger] s[i]).0 < key,
        forall|i: int| key_position(s, key) <= i < s.len() ==> (#[trigger] s[i]).0 >= key || !sorted_by_key(s),
    decreases s.len(),
{
    if s.len() > 0 && s[0].0 < key {
        lemma_key_position_bounds(s.drop_first(), key);
        assert forall|i: int| 0 <= i < key_position(s, key) implies (#[trigger] s[i]).0 < key by {
            if i > 0 {
                assert(s.drop_first()[i - 1] == s[i]);
            }
        }
        assert forall|i: int|
            key_position(s, key) <= i < s.len() implies (#[trigger] s[i]).0 >= key
            || !sorted_by_key(s) by {
            if sorted_by_key(s) {
                assert(sorted_by_key(s.drop_first())) by {
                    assert forall|a: int, b: int|
                        0 <= a < b < s.drop_first().len() implies (#[trigger] s.drop_first()[a]).0
                        < (#[trigger] s.drop_first()[b]).0 by {
                        assert(s.drop_first()[a] == s[a + 1]);
                        assert(s.drop_first()[b] == s[b + 1]);
                    }
                }
                assert(s.drop_first()[i - 1] == s[i]);
            }
        }
    }
}

/// A map from integer keys to values, stored as a vector of pairs
/// sorted by key.
#[derive(Debug, PartialEq, Eq)]
pub struct FlatMap<V>(Vec<(u64, V)>);

impl<V> FlatMap<V> {
    /// The pairs, sorted by strictly increasing key.
    pub closed spec fn spec_pairs(self) -> Seq<(u64, V)> {
        self.0@
    }

    /// The keys are strictly increasing, so each occurs once.
    pub open spec fn wf(self) -> bool {
        sorted_by_key(self.spec_pairs())
    }

    /// An empty map.
    pub fn new() -> (r: Self)
        ensures
            r.wf(),
            r.spec_pairs() == Seq::<(u64, V)>::empty(),
    {
        FlatMap(Vec::new())
    }

    /// The number of keys.
    pub fn len(&self) -> (r: usize)
        ensures
            r == self.spec_pairs().len(),
    {
        self.0.len()
    }

    /// Whether the map holds no key.
    pub fn is_empty(&self) -> (r: bool)
        ensures
            r == (self.spec_pairs().len() == 0),
    {
        self.0.len() == 0
    }

    /// The pairs, sorted by key.
    pub fn as_slice(&self) -> (r: &[(u64, V)])
        ensures
            r@ == self.spec_pairs(),
    {
        self.0.as_slice()
    }

    /// The index of `key`, when the map holds it.
    fn find(&self, key: u64) -> (r: Option<usize>)
        requires
            self.wf(),
        ensures
            match r {
                Some(i) => i < self.spec_pairs().len() && self.spec_pairs()[i as int].0 == key,
                None => !has_key(self.spec_pairs(), key),
            },
    {
        let mut i: usize = 0;
        while i < self.0.len()
            invariant
                i <= self.spec_pairs().len(),
                forall|j: int| 0 <= j < i ==> (#[trigger] self.spec_pairs()[j]).0 != key,
            decreases self.spec_pairs().len() - i,
        {
            if self.0[i].0 == key {
                return Some(i);
            }
            i = i + 1;
        }
        None
    }

    /// Adds or replaces the value under `key`: a fresh key slots into
    /// its sorted position, and a present key gives its old value
    /// back.
    pub fn insert(&mut self, key: u64, value: V) -> (r: Option<V>)
        requires
            old(self).wf(),
            old(self).spec_pairs().len() < usize::MAX,
        ensures
            final(self).wf(),
            if has_key(old(self).spec_pairs(), key) {
                exists|i: int|
                    {
                        &&& 0 <= i < old(self).spec_pairs().len()
                        &&& (#[trigger] old(self).spec_pairs()[i]).0 == key
                        &&& final(self).spec_pairs() == old(self).spec_pairs().update(
                            i,
                            (key, value),
                        )
                        &&& r is Some && r->0 == old(self).spec_pairs()[i].1
                    }
            } else {
                &&& r is None
                &&& final(self).spec_pairs() == old(self).spec_pairs().insert(
                    key_position(old(self).spec_pairs(), key),
                    (key, value),
                )
            },
    {
        let ghost s0 = self.spec_pairs();
        match self.find(key) {
            Some(i) => {
                let mut pair = (key, value);
                core::mem::swap(&mut self.0[i], &mut pair);
                proof {
                    assert(self.spec_pairs() =~= s0.update(i as int, (key, value)));
                    assert forall|a: int, b: int|
                        0 <= a < b < self.spec_pairs().len() implies (
                    #[trigger] self.spec_pairs()[a]).0 < (#[trigger] self.spec_pairs()[b]).0 by {
                        assert(s0[a].0 < s0[b].0);
                        assert(s0[i as int].0 == key);
                    }
                }
                Some(pair.1)
            },
            None => {
                proof {
                    lemma_key_position_bounds(s0, key);
                }
                let mut pos: usize = 0;
                while pos < self.0.len() && self.0[pos].0 < key
                    invariant
                        self.spec_pairs() == s0,
                        pos <= s0.len(),
                        forall|j: int| 0 <= j < pos ==> (#[trigger] s0[j]).0 < key,
                    decreases s0.len() - pos,
                {
                    pos = pos + 1;
                }
                proof {
                    // the scan stops exactly at the sorted position
                    assert(pos == key_position(s0, key)) by {
                        lemma_key_position_bounds(s0, key);
                        if pos < key_position(s0, key) {
                            assert(s0[pos as int].0 < key);
                        }
                        if pos > key_position(s0, key) {
                            assert(s0[key_position(s0, key)].0 >= key);
                            assert(s0[key_position(s0, key)].0 < key);
                        }
                    }
                }
                self.0.insert(pos, (key, value));
                proof {
                    let s1 = self.spec_pairs();
                    assert(s1 =~= s0.insert(pos as int, (key, value)));
                    assert forall|a: int, b: int|
                        0 <= a < b < s1.len() implies (#[trigger] s1[a]).0 < (#[trigger] s1[b]).0
                    by {
                        if a < pos && b < pos {
                            assert(s1[a] == s0[a] && s1[b] == s0[b]);
                        } else if a < pos && b == pos {
                            assert(s1[a] == s0[a]);
                        } else if a < pos && b > pos {
                            assert(s1[a] == s0[a] && s1[b] == s0[b - 1]);
                            assert(s0[a].0 < key);
                            assert(s0[b - 1].0 >= key);
                            assert(s0[b - 1].0 != key);
                        } else if a == pos && b > pos {
                            assert(s1[b] == s0[b - 1]);
                            assert(s0[b - 1].0 >= key);
                            assert(s0[b - 1].0 != key);
                        } else {
                            assert(s1[a] == s0[a - 1] && s1[b] == s0[b - 1]);
                            assert(s0[a - 1].0 < s0[b - 1].0);
                        }
                    }
                }
                None
            },
        }
    }

    /// The value under `key`, when the map holds it.
    pub fn get(&self, key: &u64) -> (r: Option<&V>)
        requires
            self.wf(),
        ensures
            match r {
                Some(v) => exists|i: int|
                    0 <= i < self.spec_pairs().len() && #[trigger] self.spec_pairs()[i] == (
                    *key,
                    *v,
                ),
                None => !has_key(self.spec_pairs(), *key),
            },
    {
        match self.find(*key) {
            Some(i) => Some(&self.0[i].1),
            None => None,
        }
    }

    /// Removes `key`, giving its pair back; the other pairs keep
    /// their order.
    pub fn remove_entry(&mut self, key: &u64) -> (r: Option<(u64, V)>)
        requires
            old(self).wf(),
        ensures
            final(self).wf(),
            match r {
                Some(pair) => exists|i: int|
                    {
                        &&& 0 <= i < old(self).spec_pairs().len()
                        &&& pair == #[trigger] old(self).spec_pairs()[i]
                        &&& pair.0 == *key
                        &&& final(self).spec_pairs() == old(self).spec_pairs().remove(i)
                    },
                None => {
                    &&& !has_key(old(self).spec_pairs(), *key)
                    &&& final(self).spec_pairs() == old(self).spec_pairs()
                },
            },
    {
        let ghost s0 = self.spec_pairs();
        match self.find(*key) {
            Some(i) => {
                let pair = self.0.remove(i);
                proof {
                    assert(self.spec_pairs() =~= s0.remove(i as int));
                    assert forall|a: int, b: int|
                        0 <= a < b < self.spec_pairs().len() implies (
                    #[trigger] self.spec_pairs()[a]).0 < (#[trigger] self.spec_pairs()[b]).0 by {
                        let sa: int = if a < i { a } else { a + 1 };
                        let sb: int = if b < i { b } else { b + 1 };
                        assert(self.spec_pairs()[a] == s0[sa]);
                        assert(self.spec_pairs()[b] == s0[sb]);
                        assert(s0[sa].0 < s0[sb].0);
                    }
                }
                Some(pair)
            },
            None => None,
        }
    }

    /// Removes `key`, giving its value back.
    pub fn remove(&mut self, key: &u64) -> (r: Option<V>)
        requires
            old(self).wf(),
        ensures
            final(self).wf(),
            match r {
                Some(v) => exists|i: int|
                    {
                        &&& 0 <= i < old(self).spec_pairs().len()
                        &&& (#[trigger] old(self).spec_pairs()[i]).0 == *key
                        &&& v == old(self).spec_pairs()[i].1
                        &&& final(self).spec_pairs() == old(self).spec_pairs().remove(i)
                    },
                None => {
                    &&& !has_key(old(self).spec_pairs(), *key)
                    &&& final(self).spec_pairs() == old(self).spec_pairs()
                },
            },
    {
        match self.remove_entry(key) {
            Some(pair) => Some(pair.1),
            None => None,
        }
    }
}

} // verus!
