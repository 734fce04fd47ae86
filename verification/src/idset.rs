//! Duplicate-free set of `u64` identifiers, kept as a vector. Owner sets
//! of the equipment index, the level buckets and the local scrapbook are
//! all of this type; its mathematical model is a `Set<u64>`.

use vstd::prelude::*;

verus! {

pub struct IdSet {
    items: Vec<u64>,
}

/// Removing one position from a duplicate-free sequence removes exactly
/// that element from the denoted set.
proof fn lemma_remove_at<A>(s: Seq<A>, i: int)
    requires
        s.no_duplicates(),
        0 <= i < s.len(),
    ensures
        s.remove(i).no_duplicates(),
        s.remove(i).to_set() == s.to_set().remove(s[i]),
{
    let removed = s.remove(i);
    assert forall|a: int, b: int| 0 <= a < b < removed.len() implies removed[a] != removed[b] by {
        let a_orig: int = if a < i {
            a
        } else {
            a + 1
        };
        let b_orig: int = if b < i {
            b
        } else {
            b + 1
        };
        assert(removed[a] == s[a_orig]);
        assert(removed[b] == s[b_orig]);
    }
    assert forall|x: A| removed.to_set().contains(x) <==> s.to_set().remove(s[i]).contains(x) by {
        if removed.contains(x) {
            let j = choose|j: int| 0 <= j < removed.len() && removed[j] == x;
            let j_orig: int = if j < i {
                j
            } else {
                j + 1
            };
            assert(s[j_orig] == x);
            assert(s.contains(x));
        }
        if s.contains(x) && x != s[i] {
            let j = choose|j: int| 0 <= j < s.len() && s[j] == x;
            let j_new: int = if j < i {
                j
            } else {
                j - 1
            };
            assert(removed[j_new] == x);
            assert(removed.contains(x));
        }
    }
    assert(removed.to_set() =~= s.to_set().remove(s[i]));
}

impl IdSet {
    /// The elements as stored, in order.
    pub closed spec fn seq(&self) -> Seq<u64> {
        self.items@
    }

    pub open spec fn wf(&self) -> bool {
        self.seq().no_duplicates()
    }

    /// The mathematical value of the set.
    pub open spec fn as_set(&self) -> Set<u64> {
        self.seq().to_set()
    }

    pub fn new() -> (r: Self)
        ensures
            r.wf(),
            r.as_set() == Set::<u64>::empty(),
            r.seq() == Seq::<u64>::empty(),
    {
        proof {
            assert(Seq::<u64>::empty().to_set() =~= Set::<u64>::empty());
        }
        IdSet { items: Vec::new() }
    }

    pub fn singleton(x: u64) -> (r: Self)
        ensures
            r.wf(),
            r.as_set() == Set::<u64>::empty().insert(x),
    {
        let mut items: Vec<u64> = Vec::new();
        items.push(x);
        proof {
            assert(items@[0] == x);
            assert forall|a: u64|
                items@.to_set().contains(a) <==> Set::<u64>::empty().insert(x).contains(a) by {
                if items@.contains(a) {
                    let j = choose|j: int| 0 <= j < items@.len() && items@[j] == a;
                    assert(j == 0);
                }
                if a == x {
                    assert(items@.contains(a));
                }
            }
            assert(items@.to_set() =~= Set::<u64>::empty().insert(x));
        }
        IdSet { items }
    }

    pub fn contains(&self, x: u64) -> (r: bool)
        ensures
            r == self.as_set().contains(x),
    {
        let mut i: usize = 0;
        while i < self.items.len()
            invariant
                i <= self.items.len(),
                forall|j: int| 0 <= j < i ==> self.items@[j] != x,
            decreases self.items.len() - i,
        {
            if self.items[i] == x {
                return true;
            }
            i = i + 1;
        }
        false
    }

    pub fn insert(&mut self, x: u64)
        requires
            old(self).wf(),
        ensures
            final(self).wf(),
            final(self).as_set() == old(self).as_set().insert(x),
    {
        if !self.contains(x) {
            let ghost before = self.items@;
            self.items.push(x);
            proof {
                assert forall|a: int, b: int|
                    0 <= a < b < self.items@.len() implies self.items@[a] != self.items@[b] by {
                    if b == self.items@.len() - 1 {
                        assert(self.items@[a] == before[a]);
                        assert(before.contains(before[a]));
                        assert(before.to_set().contains(before[a]));
                    } else {
                        assert(self.items@[a] == before[a]);
                        assert(self.items@[b] == before[b]);
                    }
                }
                assert forall|a: u64|
                    self.items@.to_set().contains(a) <==> before.to_set().insert(x).contains(
                        a,
                    ) by {
                    if self.items@.contains(a) {
                        let j = choose|j: int| 0 <= j < self.items@.len() && self.items@[j] == a;
                        if j < before.len() {
                            assert(before[j] == a);
                            assert(before.contains(a));
                        }
                    }
                    if before.contains(a) {
                        let j = choose|j: int| 0 <= j < before.len() && before[j] == a;
                        assert(self.items@[j] == a);
                        assert(self.items@.contains(a));
                    }
                    if a == x {
                        assert(self.items@[self.items@.len() - 1] == a);
                        assert(self.items@.contains(a));
                    }
                }
                assert(self.items@.to_set() =~= before.to_set().insert(x));
            }
        } else {
            proof {
                assert(self.as_set() =~= old(self).as_set().insert(x));
            }
        }
    }

    pub fn remove(&mut self, x: u64)
        requires
            old(self).wf(),
        ensures
            final(self).wf(),
            final(self).as_set() == old(self).as_set().remove(x),
    {
        let mut i: usize = 0;
        while i < self.items.len()
            invariant
                i <= self.items.len(),
                forall|j: int| 0 <= j < i ==> self.items@[j] != x,
                self.items@ == old(self).items@,
                old(self).wf(),
            decreases self.items.len() - i,
        {
            if self.items[i] == x {
                let ghost before = self.items@;
                self.items.remove(i);
                proof {
                    lemma_remove_at(before, i as int);
                }
                return ;
            }
            i = i + 1;
        }
        proof {
            assert(!self.as_set().contains(x));
            assert(self.as_set() =~= old(self).as_set().remove(x));
        }
    }

    pub fn len(&self) -> (r: usize)
        ensures
            r == self.seq().len(),
            self.wf() ==> r == self.as_set().len(),
    {
        proof {
            if self.wf() {
                self.seq().unique_seq_to_set();
            }
        }
        self.items.len()
    }

    pub fn is_empty(&self) -> (r: bool)
        ensures
            r == (self.seq().len() == 0),
            self.wf() ==> r == (self.as_set() == Set::<u64>::empty()),
    {
        proof {
            if self.wf() {
                self.seq().unique_seq_to_set();
                if self.seq().len() == 0 {
                    assert(self.as_set() =~= Set::<u64>::empty());
                } else {
                    assert(self.as_set().contains(self.seq()[0]));
                }
            }
        }
        self.items.len() == 0
    }

    /// An owned copy with the same elements.
    pub fn duplicate(&self) -> (r: Self)
        ensures
            r.seq() == self.seq(),
    {
        let items = self.items.clone();
        proof {
            assert(items@ =~= self.items@);
        }
        IdSet { items }
    }

    pub fn at(&self, i: usize) -> (r: u64)
        requires
            i < self.seq().len(),
        ensures
            r == self.seq()[i as int],
            self.as_set().contains(r),
    {
        proof {
            assert(self.seq().contains(self.seq()[i as int]));
        }
        self.items[i]
    }
}

} // verus!
