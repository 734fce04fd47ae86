//! Association map from `u64` keys to values, kept as a vector of pairs
//! with pairwise distinct keys. The player database, the inverted
//! equipment index and the level buckets are all built on it; its
//! mathematical model is a `Map<u64, V>`.

use vstd::prelude::*;

verus! {

pub struct VecMap<V> {
    pairs: Vec<(u64, V)>,
}

/// The map denoted by a sequence of key/value pairs; later pairs win.
pub open spec fn pairs_to_map<V>(s: Seq<(u64, V)>) -> Map<u64, V>
    decreases s.len(),
{
    if s.len() == 0 {
        Map::empty()
    } else {
        pairs_to_map(s.drop_last()).insert(s.last().0, s.last().1)
    }
}

/// The keys of a sequence of pairs, in order.
pub open spec fn pair_keys<V>(s: Seq<(u64, V)>) -> Seq<u64> {
    s.map_values(|p: (u64, V)| p.0)
}

proof fn lemma_pair_keys_drop_last<V>(s: Seq<(u64, V)>)
    requires
        s.len() > 0,
    ensures
        pair_keys(s.drop_last()) == pair_keys(s).drop_last(),
{
    assert(pair_keys(s.drop_last()) =~= pair_keys(s).drop_last());
}

/// With distinct keys, `pairs_to_map` has exactly the pairs' keys as its
/// domain and maps each key to the value beside it.
pub proof fn lemma_pairs_to_map<V>(s: Seq<(u64, V)>)
    requires
        pair_keys(s).no_duplicates(),
    ensures
        forall|k: u64|
            #[trigger] pairs_to_map(s).contains_key(k) <==> pair_keys(s).contains(k),
        forall|i: int|
            0 <= i < s.len() ==> pairs_to_map(s)[#[trigger] s[i].0] == s[i].1,
        pairs_to_map(s).dom().len() == s.len(),
        pairs_to_map(s).dom().finite(),
    decreases s.len(),
{
    if s.len() == 0 {
        assert(pairs_to_map(s).dom() =~= Set::<u64>::empty());
    } else {
        let prev = s.drop_last();
        lemma_pair_keys_drop_last(s);
        assert(pair_keys(prev).no_duplicates());
        lemma_pairs_to_map(prev);
        assert forall|k: u64| #[trigger]
            pairs_to_map(s).contains_key(k) <==> pair_keys(s).contains(k) by {
            if pairs_to_map(s).contains_key(k) {
                if k == s.last().0 {
                    assert(pair_keys(s)[s.len() - 1] == k);
                } else {
                    assert(pair_keys(prev).contains(k));
                    let i = choose|i: int|
                        0 <= i < pair_keys(prev).len() && pair_keys(prev)[i] == k;
                    assert(pair_keys(s)[i] == k);
                }
            }
            if pair_keys(s).contains(k) {
                let i = choose|i: int| 0 <= i < pair_keys(s).len() && pair_keys(s)[i] == k;
                if i == s.len() - 1 {
                    assert(pairs_to_map(s).contains_key(s.last().0));
                } else {
                    assert(pair_keys(prev)[i] == k);
                    assert(pair_keys(prev).contains(k));
                }
            }
        }
        assert forall|i: int| 0 <= i < s.len() implies pairs_to_map(s)[#[trigger] s[i].0]
            == s[i].1 by {
            if i == s.len() - 1 {
            } else {
                // the last key differs from s[i].0 since keys are distinct
                assert(pair_keys(s)[i] == s[i].0);
                assert(pair_keys(s)[s.len() - 1] == s.last().0);
                assert(prev[i] == s[i]);
            }
        }
        assert(!pairs_to_map(prev).contains_key(s.last().0)) by {
            if pairs_to_map(prev).contains_key(s.last().0) {
                let i = choose|i: int|
                    0 <= i < pair_keys(prev).len() && pair_keys(prev)[i] == s.last().0;
                assert(pair_keys(s)[i] == s.last().0);
                assert(pair_keys(s)[s.len() - 1] == s.last().0);
            }
        }
        assert(pairs_to_map(s).dom() =~= pairs_to_map(prev).dom().insert(s.last().0));
        assert(pairs_to_map(s).dom().len() == s.len()) by {
            vstd::set::axiom_set_insert_len(pairs_to_map(prev).dom(), s.last().0);
        }
    }
}

impl<V> VecMap<V> {
    /// The pairs as stored, in order.
    pub closed spec fn entries(&self) -> Seq<(u64, V)> {
        self.pairs@
    }

    /// A well-formed map holds each key at most once.
    pub open spec fn wf(&self) -> bool {
        pair_keys(self.entries()).no_duplicates()
    }

    /// The mathematical value of the map.
    pub open spec fn as_map(&self) -> Map<u64, V> {
        pairs_to_map(self.entries())
    }

    /// Re-states `lemma_pairs_to_map` for this map, for callers that walk
    /// the entries and reason about the map at the same time.
    pub proof fn lemma_model(&self)
        requires
            self.wf(),
        ensures
            forall|k: u64|
                #[trigger] self.as_map().contains_key(k) <==> pair_keys(
                    self.entries(),
                ).contains(k),
            forall|i: int|
                0 <= i < self.entries().len() ==> self.as_map()[
                    #[trigger] self.entries()[i].0
                ] == self.entries()[i].1,
            self.as_map().dom().len() == self.entries().len(),
            self.as_map().dom().finite(),
    {
        lemma_pairs_to_map(self.entries());
    }

    pub fn new() -> (r: Self)
        ensures
            r.wf(),
            r.as_map() == Map::<u64, V>::empty(),
            r.entries() == Seq::<(u64, V)>::empty(),
    {
        VecMap { pairs: Vec::new() }
    }

    fn find_index(&self, key: u64) -> (r: Option<usize>)
        ensures
            match r {
                Some(i) => i < self.entries().len() && self.entries()[i as int].0 == key,
                None => forall|i: int|
                    0 <= i < self.entries().len() ==> (#[trigger] self.entries()[i]).0 != key,
            },
    {
        let mut i: usize = 0;
        while i < self.pairs.len()
            invariant
                i <= self.pairs.len(),
                forall|j: int| 0 <= j < i ==> (#[trigger] self.pairs@[j]).0 != key,
            decreases self.pairs.len() - i,
        {
            if self.pairs[i].0 == key {
                return Some(i);
            }
            i = i + 1;
        }
        None
    }

    pub fn contains_key(&self, key: u64) -> (r: bool)
        requires
            self.wf(),
        ensures
            r == self.as_map().contains_key(key),
    {
        proof {
            self.lemma_model();
        }
        match self.find_index(key) {
            Some(i) => {
                proof {
                    assert(pair_keys(self.entries())[i as int] == key);
                }
                true
            },
            None => {
                proof {
                    assert forall|j: int|
                        0 <= j < pair_keys(self.entries()).len() implies pair_keys(
                        self.entries(),
                    )[j] != key by {
                        assert(pair_keys(self.entries())[j] == self.entries()[j].0);
                    }
                }
                false
            },
        }
    }

    pub fn get(&self, key: u64) -> (r: Option<&V>)
        requires
            self.wf(),
        ensures
            match r {
                Some(v) => self.as_map().contains_key(key) && *v == self.as_map()[key],
                None => !self.as_map().contains_key(key),
            },
    {
        proof {
            self.lemma_model();
        }
        match self.find_index(key) {
            Some(i) => {
                proof {
                    assert(pair_keys(self.entries())[i as int] == key);
                }
                Some(&self.pairs[i].1)
            },
            None => {
                proof {
                    assert forall|j: int|
                        0 <= j < pair_keys(self.entries()).len() implies pair_keys(
                        self.entries(),
                    )[j] != key by {
                        assert(pair_keys(self.entries())[j] == self.entries()[j].0);
                    }
                }
                None
            },
        }
    }

    pub fn insert(&mut self, key: u64, value: V)
        requires
            old(self).wf(),
        ensures
            final(self).wf(),
            final(self).as_map() == old(self).as_map().insert(key, value),
    {
        proof {
            self.lemma_model();
        }
        match self.find_index(key) {
            Some(i) => {
                let ghost before = self.pairs@;
                self.pairs.remove(i);
                proof {
                    lemma_remove_key_map(before, i as int);
                    assert(before[i as int].0 == key);
                    assert(!pairs_to_map(self.pairs@).contains_key(key));
                }
                let ghost mid = self.pairs@;
                self.pairs.push((key, value));
                proof {
                    lemma_push_new_key(mid, key, value);
                    assert(self.as_map() =~= old(self).as_map().insert(key, value));
                }
            },
            None => {
                proof {
                    assert forall|j: int|
                        0 <= j < pair_keys(self.pairs@).len() implies pair_keys(self.pairs@)[j]
                        != key by {
                        assert(pair_keys(self.pairs@)[j] == self.pairs@[j].0);
                    }
                    assert(!self.as_map().contains_key(key));
                }
                let ghost mid = self.pairs@;
                self.pairs.push((key, value));
                proof {
                    lemma_push_new_key(mid, key, value);
                }
            },
        }
    }

    pub fn remove(&mut self, key: u64) -> (r: Option<V>)
        requires
            old(self).wf(),
        ensures
            final(self).wf(),
            final(self).as_map() == old(self).as_map().remove(key),
            final(self).entries().len() == old(self).entries().len() - (
            if old(self).as_map().contains_key(key) {
                1int
            } else {
                0
            }),
            match r {
                Some(v) => old(self).as_map().contains_key(key) && v == old(self).as_map()[key],
                None => !old(self).as_map().contains_key(key),
            },
    {
        proof {
            self.lemma_model();
        }
        match self.find_index(key) {
            Some(i) => {
                let ghost before = self.pairs@;
                let pair = self.pairs.remove(i);
                proof {
                    lemma_remove_key_map(before, i as int);
                    assert(before[i as int].0 == key);
                    assert(pair_keys(before)[i as int] == key);
                    assert(old(self).as_map().contains_key(key));
                    assert(pairs_to_map(before)[before[i as int].0] == before[i as int].1);
                }
                Some(pair.1)
            },
            None => {
                proof {
                    assert(self.as_map() =~= old(self).as_map().remove(key));
                }
                None
            },
        }
    }

    pub fn len(&self) -> (r: usize)
        ensures
            r == self.entries().len(),
            self.wf() ==> r == self.as_map().dom().len(),
    {
        proof {
            if self.wf() {
                self.lemma_model();
            }
        }
        self.pairs.len()
    }

    pub fn entry_at(&self, i: usize) -> (r: &(u64, V))
        requires
            i < self.entries().len(),
        ensures
            *r == self.entries()[i as int],
            self.wf() ==> self.as_map().contains_key(r.0) && self.as_map()[r.0] == r.1,
    {
        proof {
            if self.wf() {
                self.lemma_model();
                assert(pair_keys(self.entries())[i as int] == self.entries()[i as int].0);
            }
        }
        &self.pairs[i]
    }
}

/// Removing the pair at `i` removes exactly its key from the denoted map,
/// provided keys are distinct.
proof fn lemma_remove_key_map<V>(s: Seq<(u64, V)>, i: int)
    requires
        pair_keys(s).no_duplicates(),
        0 <= i < s.len(),
    ensures
        pair_keys(s.remove(i)).no_duplicates(),
        pairs_to_map(s.remove(i)) == pairs_to_map(s).remove(s[i].0),
{
    let removed = s.remove(i);
    assert(pair_keys(removed) =~= pair_keys(s).remove(i));
    assert(pair_keys(removed).no_duplicates()) by {
        assert forall|a: int, b: int|
            0 <= a < b < pair_keys(removed).len() implies pair_keys(removed)[a] != pair_keys(
            removed,
        )[b] by {
            let a_orig: int = if a < i {
                a
            } else {
                a + 1
            };
            let b_orig: int = if b < i {
                b
            } else {
                b + 1
            };
            assert(pair_keys(removed)[a] == pair_keys(s)[a_orig]);
            assert(pair_keys(removed)[b] == pair_keys(s)[b_orig]);
        }
    }
    lemma_pairs_to_map(s);
    lemma_pairs_to_map(removed);
    assert forall|k: u64|
        pairs_to_map(removed).contains_key(k) <==> pairs_to_map(s).remove(
            s[i].0,
        ).contains_key(k) by {
        if pairs_to_map(removed).contains_key(k) {
            let j = choose|j: int| 0 <= j < pair_keys(removed).len() && pair_keys(removed)[j] == k;
            let j_orig: int = if j < i {
                j
            } else {
                j + 1
            };
            assert(pair_keys(s)[j_orig] == k);
            assert(pair_keys(s).contains(k));
            assert(k != s[i].0) by {
                assert(pair_keys(s)[i] == s[i].0);
            }
        }
        if pairs_to_map(s).remove(s[i].0).contains_key(k) {
            let j = choose|j: int| 0 <= j < pair_keys(s).len() && pair_keys(s)[j] == k;
            assert(pair_keys(s)[i] == s[i].0);
            let j_new: int = if j < i {
                j
            } else {
                j - 1
            };
            assert(pair_keys(removed)[j_new] == k);
            assert(pair_keys(removed).contains(k));
        }
    }
    assert forall|k: u64| #[trigger] pairs_to_map(removed).contains_key(k) implies pairs_to_map(
        removed,
    )[k] == pairs_to_map(s).remove(s[i].0)[k] by {
        let j = choose|j: int| 0 <= j < pair_keys(removed).len() && pair_keys(removed)[j] == k;
        assert(removed[j].0 == k);
        let j_orig: int = if j < i {
            j
        } else {
            j + 1
        };
        assert(s[j_orig] == removed[j]);
        assert(pairs_to_map(s)[s[j_orig].0] == s[j_orig].1);
    }
    assert(pairs_to_map(removed) =~= pairs_to_map(s).remove(s[i].0));
}

/// Pushing a pair whose key is absent extends the denoted map and keeps
/// keys distinct.
proof fn lemma_push_new_key<V>(s: Seq<(u64, V)>, key: u64, value: V)
    requires
        pair_keys(s).no_duplicates(),
        !pairs_to_map(s).contains_key(key),
    ensures
        pair_keys(s.push((key, value))).no_duplicates(),
        pairs_to_map(s.push((key, value))) == pairs_to_map(s).insert(key, value),
{
    lemma_pairs_to_map(s);
    let pushed = s.push((key, value));
    assert(pair_keys(pushed) =~= pair_keys(s).push(key));
    assert forall|j: int| 0 <= j < pair_keys(s).len() implies pair_keys(s)[j] != key by {
        if pair_keys(s)[j] == key {
            assert(pair_keys(s).contains(key));
        }
    }
    assert(pair_keys(pushed).no_duplicates());
    assert(pushed.drop_last() =~= s);
    assert(pushed.last() == (key, value));
}

} // verus!
