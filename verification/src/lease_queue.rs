//! The expiry queue: a priority structure over `(id, expiry)` pairs that
//! supports insert-or-overwrite, overwrite, removal, peeking at the earliest
//! expiry and popping an id with the earliest expiry.
//!
//! It is modelled as a map from lease id to expiry instant. Ties on equal
//! expiries are broken arbitrarily; the contracts only promise that a popped
//! id carries a minimal expiry.

use vstd::prelude::*;
use vstd::pervasive::VecAdditionalExecFns;

verus! {

/// True iff some entry of `s` carries the id `id`.
pub open spec fn entry_present(s: Seq<(i64, u64)>, id: i64) -> bool {
    exists|i: int| 0 <= i < s.len() && s[i].0 == id
}

/// The expiry stored for `id` (meaningful when the ids of `s` are distinct).
pub open spec fn entry_value(s: Seq<(i64, u64)>, id: i64) -> u64 {
    s[choose|i: int| 0 <= i < s.len() && s[i].0 == id].1
}

/// Queue of lease expiries, keyed by lease id.
pub struct LeaseQueue {
    entries: Vec<(i64, u64)>,
}

impl View for LeaseQueue {
    type V = Map<i64, u64>;

    closed spec fn view(&self) -> Map<i64, u64> {
        Map::new(
            |id: i64| entry_present(self.entries@, id),
            |id: i64| entry_value(self.entries@, id),
        )
    }
}

impl LeaseQueue {
    /// No entry names the same id twice.
    pub closed spec fn wf(&self) -> bool {
        forall|i: int, j: int|
            0 <= i < j < self.entries@.len() ==> self.entries@[i].0 != self.entries@[j].0
    }

    /// An empty queue.
    pub fn new() -> (r: LeaseQueue)
        ensures
            r.wf(),
            r@ == Map::<i64, u64>::empty(),
    {
        let r = LeaseQueue { entries: Vec::new() };
        proof {
            assert(r@ =~= Map::<i64, u64>::empty());
        }
        r
    }

    /// Position of the entry for `id`, if present.
    fn find(&self, id: i64) -> (r: Option<usize>)
        ensures
            match r {
                Some(i) => 0 <= i < self.entries@.len() && self.entries@[i as int].0 == id,
                None => !entry_present(self.entries@, id),
            },
    {
        let mut i: usize = 0;
        while i < self.entries.len()
            invariant
                0 <= i <= self.entries@.len(),
                forall|j: int| 0 <= j < i ==> self.entries@[j].0 != id,
            decreases self.entries@.len() - i,
        {
            if self.entries[i].0 == id {
                return Some(i);
            }
            i = i + 1;
        }
        None
    }

    /// With distinct ids, the stored value at any index is the value the map
    /// view assigns to its id.
    proof fn lemma_value_at(&self, i: int)
        requires
            self.wf(),
            0 <= i < self.entries@.len(),
        ensures
            self@.contains_key(self.entries@[i].0),
            self@[self.entries@[i].0] == self.entries@[i].1,
    {
        let id = self.entries@[i].0;
        assert(entry_present(self.entries@, id));
        let j = choose|j: int| 0 <= j < self.entries@.len() && self.entries@[j].0 == id;
        if i != j {
            assert(self.entries@[i].0 != self.entries@[j].0);
        }
    }

    /// Insert or overwrite the entry for `id`; the prior expiry, if any, is
    /// returned.
    pub fn insert(&mut self, id: i64, expiry: u64) -> (prior: Option<u64>)
        requires
            old(self).wf(),
        ensures
            final(self).wf(),
            final(self)@ == old(self)@.insert(id, expiry),
            prior == (if old(self)@.contains_key(id) {
                Some(old(self)@[id])
            } else {
                None::<u64>
            }),
    {
        match self.find(id) {
            Some(i) => {
                let prior = self.entries[i].1;
                proof {
                    self.lemma_value_at(i as int);
                }
                self.entries.set(i, (id, expiry));
                proof {
                    assert forall|k: i64| #[trigger] entry_present(self.entries@, k)
                        implies old(self)@.insert(id, expiry).contains_key(k) by {
                        let w = choose|w: int|
                            0 <= w < self.entries@.len() && self.entries@[w].0 == k;
                        if w != i {
                            assert(old(self).entries@[w].0 == k);
                        }
                    }
                    assert forall|k: i64| old(self)@.insert(id, expiry).contains_key(k)
                        implies #[trigger] entry_present(self.entries@, k) by {
                        if k == id {
                            assert(self.entries@[i as int].0 == k);
                        } else {
                            let w = choose|w: int|
                                0 <= w < old(self).entries@.len() && old(self).entries@[w].0 == k;
                            assert(self.entries@[w].0 == k);
                        }
                    }
                    assert forall|k: i64| #[trigger] self@.contains_key(k)
                        implies self@[k] == old(self)@.insert(id, expiry)[k] by {
                        let w = choose|w: int|
                            0 <= w < self.entries@.len() && self.entries@[w].0 == k;
                        self.lemma_value_at(w);
                        if k != id {
                            assert(old(self).entries@[w].0 == k);
                            old(self).lemma_value_at(w);
                        }
                    }
                    assert(self@ =~= old(self)@.insert(id, expiry));
                }
                Some(prior)
            },
            None => {
                self.entries.push((id, expiry));
                proof {
                    assert forall|k: i64| #[trigger] entry_present(self.entries@, k)
                        implies old(self)@.insert(id, expiry).contains_key(k) by {
                        let w = choose|w: int|
                            0 <= w < self.entries@.len() && self.entries@[w].0 == k;
                        if w < old(self).entries@.len() {
                            assert(old(self).entries@[w].0 == k);
                        }
                    }
                    let n = old(self).entries@.len() as int;
                    assert(self.entries@[n].0 == id);
                    assert forall|k: i64| old(self)@.insert(id, expiry).contains_key(k)
                        implies #[trigger] entry_present(self.entries@, k) by {
                        if k != id {
                            let w = choose|w: int|
                                0 <= w < old(self).entries@.len() && old(self).entries@[w].0 == k;
                            assert(self.entries@[w].0 == k);
                        }
                    }
                    assert forall|k: i64| #[trigger] self@.contains_key(k)
                        implies self@[k] == old(self)@.insert(id, expiry)[k] by {
                        let w = choose|w: int|
                            0 <= w < self.entries@.len() && self.entries@[w].0 == k;
                        self.lemma_value_at(w);
                        if k != id {
                            assert(w < n);
                            assert(old(self).entries@[w].0 == k);
                            old(self).lemma_value_at(w);
                        }
                    }
                    assert(self@ =~= old(self)@.insert(id, expiry));
                }
                None
            },
        }
    }

    /// Overwrite the entry for `id` when one exists; a missing id is ignored.
    /// The prior expiry, if any, is returned.
    pub fn update(&mut self, id: i64, expiry: u64) -> (prior: Option<u64>)
        requires
            old(self).wf(),
        ensures
            final(self).wf(),
            final(self)@ == (if old(self)@.contains_key(id) {
                old(self)@.insert(id, expiry)
            } else {
                old(self)@
            }),
            prior == (if old(self)@.contains_key(id) {
                Some(old(self)@[id])
            } else {
                None::<u64>
            }),
    {
        match self.find(id) {
            Some(_) => {
                proof {
                    assert(old(self)@.contains_key(id));
                }
                self.insert(id, expiry)
            },
            None => {
                proof {
                    assert(!old(self)@.contains_key(id));
                }
                None
            },
        }
    }

    /// Remove the entry for `id`, returning its expiry if one was present.
    pub fn remove(&mut self, id: i64) -> (prior: Option<u64>)
        requires
            old(self).wf(),
        ensures
            final(self).wf(),
            final(self)@ == old(self)@.remove(id),
            prior == (if old(self)@.contains_key(id) {
                Some(old(self)@[id])
            } else {
                None::<u64>
            }),
    {
        match self.find(id) {
            Some(i) => {
                proof {
                    self.lemma_value_at(i as int);
                }
                let e = self.entries.remove(i);
                proof {
                    assert forall|k: i64| #[trigger] entry_present(self.entries@, k)
                        implies old(self)@.remove(id).contains_key(k) by {
                        let w = choose|w: int|
                            0 <= w < self.entries@.len() && self.entries@[w].0 == k;
                        if w < i {
                            assert(old(self).entries@[w].0 == k);
                        } else {
                            assert(old(self).entries@[w + 1].0 == k);
                        }
                        assert(k != id);
                    }
                    assert forall|k: i64| old(self)@.remove(id).contains_key(k)
                        implies #[trigger] entry_present(self.entries@, k) by {
                        let w = choose|w: int|
                            0 <= w < old(self).entries@.len() && old(self).entries@[w].0 == k;
                        if w < i {
                            assert(self.entries@[w].0 == k);
                        } else {
                            assert(self.entries@[w - 1].0 == k);
                        }
                    }
                    assert forall|k: i64| #[trigger] self@.contains_key(k)
                        implies self@[k] == old(self)@.remove(id)[k] by {
                        let w = choose|w: int|
                            0 <= w < self.entries@.len() && self.entries@[w].0 == k;
                        self.lemma_value_at(w);
                        if w < i {
                            old(self).lemma_value_at(w);
                        } else {
                            old(self).lemma_value_at(w + 1);
                        }
                    }
                    assert(self@ =~= old(self)@.remove(id));
                }
                Some(e.1)
            },
            None => {
                proof {
                    assert(self@ =~= old(self)@.remove(id));
                }
                None
            },
        }
    }

    /// The earliest expiry in the queue, or `None` when it is empty.
    pub fn peek(&self) -> (r: Option<u64>)
        requires
            self.wf(),
        ensures
            match r {
                Some(e) => {
                    &&& exists|id: i64| #[trigger] self@.contains_key(id) && self@[id] == e
                    &&& forall|id: i64| #[trigger] self@.contains_key(id) ==> e <= self@[id]
                },
                None => self@ == Map::<i64, u64>::empty(),
            },
    {
        if self.entries.len() == 0 {
            proof {
                assert(self@ =~= Map::<i64, u64>::empty());
            }
            return None;
        }
        let mut best: u64 = self.entries[0].1;
        let mut i: usize = 1;
        proof {
            self.lemma_value_at(0int);
        }
        while i < self.entries.len()
            invariant
                self.wf(),
                1 <= i <= self.entries@.len(),
                exists|j: int| 0 <= j < i && self.entries@[j].1 == best,
                forall|j: int| 0 <= j < i ==> best <= self.entries@[j].1,
            decreases self.entries@.len() - i,
        {
            if self.entries[i].1 < best {
                best = self.entries[i].1;
            }
            i = i + 1;
        }
        proof {
            let j = choose|j: int| 0 <= j < self.entries@.len() && self.entries@[j].1 == best;
            self.lemma_value_at(j);
            assert(self@.contains_key(self.entries@[j].0) && self@[self.entries@[j].0] == best);
            assert forall|id: i64| #[trigger] self@.contains_key(id) implies best <= self@[id] by {
                let w = choose|w: int|
                    0 <= w < self.entries@.len() && self.entries@[w].0 == id;
                self.lemma_value_at(w);
            }
        }
        Some(best)
    }

    /// Remove and return an id whose expiry is earliest, or `None` when the
    /// queue is empty.
    pub fn pop(&mut self) -> (r: Option<i64>)
        requires
            old(self).wf(),
        ensures
            final(self).wf(),
            match r {
                Some(id) => {
                    &&& old(self)@.contains_key(id)
                    &&& forall|o: i64| #[trigger] old(self)@.contains_key(o) ==> old(self)@[id] <= old(self)@[o]
                    &&& final(self)@ == old(self)@.remove(id)
                },
                None => {
                    &&& old(self)@ == Map::<i64, u64>::empty()
                    &&& final(self)@ == old(self)@
                },
            },
    {
        if self.entries.len() == 0 {
            proof {
                assert(self@ =~= Map::<i64, u64>::empty());
            }
            return None;
        }
        let mut best: usize = 0;
        let mut i: usize = 1;
        while i < self.entries.len()
            invariant
                self.wf(),
                1 <= i <= self.entries@.len(),
                0 <= best < i,
                forall|j: int| 0 <= j < i ==> self.entries@[best as int].1 <= self.entries@[j].1,
            decreases self.entries@.len() - i,
        {
            if self.entries[i].1 < self.entries[best].1 {
                best = i;
            }
            i = i + 1;
        }
        let id = self.entries[best].0;
        proof {
            self.lemma_value_at(best as int);
            assert forall|o: i64| #[trigger] self@.contains_key(o) implies self@[id] <= self@[o] by {
                let w = choose|w: int|
                    0 <= w < self.entries@.len() && self.entries@[w].0 == o;
                self.lemma_value_at(w);
            }
        }
        self.remove(id);
        Some(id)
    }

    /// Drop every entry.
    pub fn clear(&mut self)
        ensures
            final(self).wf(),
            final(self)@ == Map::<i64, u64>::empty(),
    {
        self.entries = Vec::new();
        proof {
            assert(self@ =~= Map::<i64, u64>::empty());
        }
    }

    /// The number of queued entries.
    pub fn len(&self) -> (r: usize)
        requires
            self.wf(),
        ensures
            self@.dom().finite(),
            r == self@.dom().len(),
    {
        proof {
            self.lemma_dom_len();
        }
        self.entries.len()
    }

    /// A well-formed queue's domain is finite.
    pub proof fn lemma_finite(&self)
        requires
            self.wf(),
        ensures
            self@.dom().finite(),
    {
        self.lemma_dom_len();
    }

    /// With distinct ids, the domain of the map view is finite and has one
    /// element per entry.
    proof fn lemma_dom_len(&self)
        requires
            self.wf(),
        ensures
            self@.dom().finite(),
            self@.dom().len() == self.entries@.len(),
        decreases self.entries@.len(),
    {
        Self::lemma_dom_len_seq(self.entries@);
        assert(self@.dom() =~= Self::spec_map(self.entries@).dom());
    }

    /// The map described by a sequence of entries.
    pub open spec fn spec_map(s: Seq<(i64, u64)>) -> Map<i64, u64> {
        Map::new(|id: i64| entry_present(s, id), |id: i64| entry_value(s, id))
    }

    /// Distinct ids give a finite domain with one element per entry.
    proof fn lemma_dom_len_seq(s: Seq<(i64, u64)>)
        requires
            forall|i: int, j: int| 0 <= i < j < s.len() ==> s[i].0 != s[j].0,
        ensures
            Self::spec_map(s).dom().finite(),
            Self::spec_map(s).dom().len() == s.len(),
        decreases s.len(),
    {
        if s.len() == 0 {
            assert(Self::spec_map(s).dom() =~= Set::<i64>::empty());
        } else {
            let n = s.len() as int;
            let rest = s.take(n - 1);
            Self::lemma_dom_len_seq(rest);
            assert forall|id: i64| Self::spec_map(rest).dom().contains(id)
                implies Self::spec_map(s).dom().contains(id) by {
                let w = choose|w: int| 0 <= w < rest.len() && rest[w].0 == id;
                assert(s[w].0 == id);
            }
            assert(Self::spec_map(s).dom() =~= Self::spec_map(rest).dom().insert(s[n - 1].0)) by {
                assert forall|id: i64| Self::spec_map(s).dom().contains(id)
                    implies Self::spec_map(rest).dom().contains(id) || id == s[n - 1].0 by {
                    let w = choose|w: int| 0 <= w < s.len() && s[w].0 == id;
                    if w < n - 1 {
                        assert(rest[w].0 == id);
                    }
                }
            }
            assert(!Self::spec_map(rest).dom().contains(s[n - 1].0)) by {
                if Self::spec_map(rest).dom().contains(s[n - 1].0) {
                    let w = choose|w: int| 0 <= w < rest.len() && rest[w].0 == s[n - 1].0;
                    assert(s[w].0 == s[n - 1].0);
                }
            }
        }
    }
}

} // verus!
