//! The key-to-revision index, as the revoke cascade sees it: each live key
//! maps to the revision of its latest put. Deleting a key hands back that
//! prior revision together with the freshly assigned delete revision.

use vstd::prelude::*;

use crate::bytes::bytes_eq;

verus! {

/// A point in the store's history: a commit revision and a sub-revision
/// that orders the mutations committed together.
#[derive(Debug, Clone, Copy, PartialEq, Eq, Structural)]
pub struct Revision {
    pub revision: i64,
    pub sub_revision: i64,
}

impl Revision {
    /// Build a revision.
    pub fn new(revision: i64, sub_revision: i64) -> (r: Revision)
        ensures
            r == (Revision { revision, sub_revision }),
    {
        Revision { revision, sub_revision }
    }

    /// The commit revision.
    pub fn revision(&self) -> (r: i64)
        ensures
            r == self.revision,
    {
        self.revision
    }
}

/// True iff some entry of the index list carries the key `k`.
pub open spec fn ix_present(s: Seq<(Vec<u8>, Revision)>, k: Seq<u8>) -> bool {
    exists|i: int| 0 <= i < s.len() && s[i].0@ == k
}

/// The revision stored for key `k` (meaningful when keys are distinct).
pub open spec fn ix_value(s: Seq<(Vec<u8>, Revision)>, k: Seq<u8>) -> Revision {
    s[choose|i: int| 0 <= i < s.len() && s[i].0@ == k].1
}

/// The map described by the index list.
pub open spec fn ix_map(s: Seq<(Vec<u8>, Revision)>) -> Map<Seq<u8>, Revision> {
    Map::new(|k: Seq<u8>| ix_present(s, k), |k: Seq<u8>| ix_value(s, k))
}

/// No key twice in the index list.
pub open spec fn ix_distinct(s: Seq<(Vec<u8>, Revision)>) -> bool {
    forall|i: int, j: int| 0 <= i < j < s.len() ==> s[i].0@ != s[j].0@
}

proof fn ix_value_at(s: Seq<(Vec<u8>, Revision)>, i: int)
    requires
        ix_distinct(s),
        0 <= i < s.len(),
    ensures
        ix_map(s).contains_key(s[i].0@),
        ix_map(s)[s[i].0@] == s[i].1,
{
    let k = s[i].0@;
    assert(ix_present(s, k));
    let j = choose|j: int| 0 <= j < s.len() && s[j].0@ == k;
    if i != j {
        assert(s[i].0@ != s[j].0@);
    }
}

proof fn ix_push_view(s: Seq<(Vec<u8>, Revision)>, key: Vec<u8>, rev: Revision)
    requires
        ix_distinct(s),
        !ix_present(s, key@),
    ensures
        ix_distinct(s.push((key, rev))),
        ix_map(s.push((key, rev))) == ix_map(s).insert(key@, rev),
{
    let s2 = s.push((key, rev));
    let n = s.len() as int;
    assert(s2[n].0@ == key@);
    assert forall|k: Seq<u8>| #[trigger] ix_present(s2, k) implies ix_map(s).insert(
        key@,
        rev,
    ).contains_key(k) by {
        let w = choose|w: int| 0 <= w < s2.len() && s2[w].0@ == k;
        if w < n {
            assert(s[w].0@ == k);
        }
    }
    assert forall|k: Seq<u8>| ix_map(s).insert(key@, rev).contains_key(k)
        implies #[trigger] ix_present(s2, k) by {
        if k != key@ {
            let w = choose|w: int| 0 <= w < s.len() && s[w].0@ == k;
            assert(s2[w].0@ == k);
        }
    }
    assert forall|k: Seq<u8>| #[trigger] ix_map(s2).contains_key(k) implies ix_map(s2)[k] == ix_map(
        s,
    ).insert(key@, rev)[k] by {
        let w = choose|w: int| 0 <= w < s2.len() && s2[w].0@ == k;
        ix_value_at(s2, w);
        if k != key@ {
            assert(w < n);
            assert(s[w].0@ == k);
            ix_value_at(s, w);
        } else {
            if w < n {
                assert(ix_present(s, key@));
            }
        }
    }
    assert(ix_map(s2) =~= ix_map(s).insert(key@, rev));
}

proof fn ix_update_view(s1: Seq<(Vec<u8>, Revision)>, s2: Seq<(Vec<u8>, Revision)>, i: int, rev: Revision)
    requires
        ix_distinct(s1),
        0 <= i < s1.len(),
        s2 == s1.update(i, (s1[i].0, rev)),
    ensures
        ix_distinct(s2),
        ix_map(s2) == ix_map(s1).insert(s1[i].0@, rev),
{
    let key = s1[i].0@;
    assert forall|k: Seq<u8>| #[trigger] ix_present(s2, k) implies ix_map(s1).insert(
        key,
        rev,
    ).contains_key(k) by {
        let w = choose|w: int| 0 <= w < s2.len() && s2[w].0@ == k;
        if w != i {
            assert(s1[w].0@ == k);
        }
    }
    assert forall|k: Seq<u8>| ix_map(s1).insert(key, rev).contains_key(k)
        implies #[trigger] ix_present(s2, k) by {
        if k == key {
            assert(s2[i].0@ == k);
        } else {
            let w = choose|w: int| 0 <= w < s1.len() && s1[w].0@ == k;
            assert(s2[w].0@ == k);
        }
    }
    assert forall|k: Seq<u8>| #[trigger] ix_map(s2).contains_key(k) implies ix_map(s2)[k] == ix_map(
        s1,
    ).insert(key, rev)[k] by {
        let w = choose|w: int| 0 <= w < s2.len() && s2[w].0@ == k;
        ix_value_at(s2, w);
        if k != key {
            assert(s1[w].0@ == k);
            ix_value_at(s1, w);
        } else {
            if w != i {
                assert(s1[w].0@ == s1[i].0@);
            }
        }
    }
    assert(ix_map(s2) =~= ix_map(s1).insert(key, rev));
}

proof fn ix_remove_view(s: Seq<(Vec<u8>, Revision)>, i: int)
    requires
        ix_distinct(s),
        0 <= i < s.len(),
    ensures
        ix_distinct(s.remove(i)),
        ix_map(s.remove(i)) == ix_map(s).remove(s[i].0@),
{
    let s2 = s.remove(i);
    let key = s[i].0@;
    assert forall|k: Seq<u8>| #[trigger] ix_present(s2, k) implies ix_map(s).remove(
        key,
    ).contains_key(k) by {
        let w = choose|w: int| 0 <= w < s2.len() && s2[w].0@ == k;
        if w < i {
            assert(s[w].0@ == k);
            assert(k != key);
        } else {
            assert(s[w + 1].0@ == k);
            assert(k != key);
        }
    }
    assert forall|k: Seq<u8>| ix_map(s).remove(key).contains_key(k) implies #[trigger] ix_present(
        s2,
        k,
    ) by {
        let w = choose|w: int| 0 <= w < s.len() && s[w].0@ == k;
        if w < i {
            assert(s2[w].0@ == k);
        } else {
            assert(w != i);
            assert(s2[w - 1].0@ == k);
        }
    }
    assert forall|k: Seq<u8>| #[trigger] ix_map(s2).contains_key(k) implies ix_map(s2)[k] == ix_map(
        s,
    ).remove(key)[k] by {
        let w = choose|w: int| 0 <= w < s2.len() && s2[w].0@ == k;
        ix_value_at(s2, w);
        if w < i {
            ix_value_at(s, w);
        } else {
            ix_value_at(s, w + 1);
        }
    }
    assert(ix_map(s2) =~= ix_map(s).remove(key));
}

/// The key-to-revision index: each live key maps to the revision of its
/// latest put.
pub struct Index {
    entries: Vec<(Vec<u8>, Revision)>,
}

impl View for Index {
    type V = Map<Seq<u8>, Revision>;

    closed spec fn view(&self) -> Map<Seq<u8>, Revision> {
        ix_map(self.entries@)
    }
}

impl Index {
    /// No key appears twice.
    pub closed spec fn wf(&self) -> bool {
        ix_distinct(self.entries@)
    }

    /// An empty index.
    pub fn new() -> (r: Index)
        ensures
            r.wf(),
            r@ == Map::<Seq<u8>, Revision>::empty(),
    {
        let r = Index { entries: Vec::new() };
        proof {
            assert(r@ =~= Map::<Seq<u8>, Revision>::empty());
        }
        r
    }

    fn find(&self, key: &[u8]) -> (r: Option<usize>)
        ensures
            match r {
                Some(i) => 0 <= i < self.entries@.len() && self.entries@[i as int].0@ == key@,
                None => !ix_present(self.entries@, key@),
            },
    {
        let mut i: usize = 0;
        while i < self.entries.len()
            invariant
                0 <= i <= self.entries@.len(),
                forall|j: int| 0 <= j < i ==> self.entries@[j].0@ != key@,
            decreases self.entries@.len() - i,
        {
            if bytes_eq(self.entries[i].0.as_slice(), key) {
                return Some(i);
            }
            i = i + 1;
        }
        None
    }

    /// Record that `key` was last put at `revision`, replacing any earlier
    /// record.
    pub fn insert(&mut self, key: Vec<u8>, revision: Revision)
        requires
            old(self).wf(),
        ensures
            final(self).wf(),
            final(self)@ == old(self)@.insert(key@, revision),
    {
        match self.find(key.as_slice()) {
            Some(i) => {
                let ghost s1 = self.entries@;
                proof {
                    ix_update_view(s1, s1.update(i as int, (s1[i as int].0, revision)), i as int, revision);
                }
                let entry = self.entries.remove(i);
                self.entries.insert(i, (entry.0, revision));
                proof {
                    assert(self.entries@ =~= s1.update(i as int, (s1[i as int].0, revision)));
                    assert(s1[i as int].0@ == key@);
                }
            },
            None => {
                proof {
                    ix_push_view(self.entries@, key, revision);
                }
                self.entries.push((key, revision));
            },
        }
    }

    /// Delete `key` at `(revision, sub_revision)`: the pair of its prior
    /// revision and the delete revision comes back, or nothing when the key
    /// is not live. The range end must be empty: this store deletes single
    /// keys only.
    pub fn delete(
        &mut self,
        key: &[u8],
        range_end: &[u8],
        revision: i64,
        sub_revision: i64,
    ) -> (r: Vec<(Revision, Revision)>)
        requires
            old(self).wf(),
            range_end@.len() == 0,
        ensures
            final(self).wf(),
            old(self)@.contains_key(key@) ==> {
                &&& r@.len() == 1
                &&& r@[0].0 == old(self)@[key@]
                &&& r@[0].1 == (Revision { revision, sub_revision })
                &&& final(self)@ == old(self)@.remove(key@)
            },
            !old(self)@.contains_key(key@) ==> r@.len() == 0 && final(self)@ == old(self)@,
    {
        let mut out: Vec<(Revision, Revision)> = Vec::new();
        match self.find(key) {
            Some(i) => {
                proof {
                    ix_value_at(self.entries@, i as int);
                    ix_remove_view(self.entries@, i as int);
                }
                let entry = self.entries.remove(i);
                out.push((entry.1, Revision { revision, sub_revision }));
            },
            None => {
                proof {
                    assert(!self@.contains_key(key@));
                }
            },
        }
        out
    }
}

} // verus!
