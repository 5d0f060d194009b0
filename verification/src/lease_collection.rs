//! The lease collection: the authoritative in-memory index of all live
//! leases, the reverse key-to-lease map, and the expiry queue.
//!
//! The collection is modelled by three correlated maps ([`CollectionView`]).
//! [`collection_inv`] states the consistency the subsystem maintains between
//! them; [`queue_complete`] states in addition that every lease with a finite
//! expiry is queued, which holds after every mutating operation and is given
//! up only between draining the expired ids and revoking them.

use vstd::prelude::*;

use crate::bytes::{contains_key, find_key, lemma_contains_push};
use crate::error::ExecuteError;
use crate::lease::{
    effective_ttl, expiry_key, lease_expired, lease_wf, lemma_remove_key_membership,
    lemma_remove_key_no_duplicates, remove_key_seq, sat_add3, Lease, LeaseData,
};
use crate::lease_queue::LeaseQueue;
use crate::pb::PbLease;
use crate::{MAX_LEASE_TTL, MIN_LEASE_TTL};

verus! {

// ---------------------------------------------------------------------------
// Views of the two association lists.
// ---------------------------------------------------------------------------

/// True iff some entry of the lease list carries the id `id`.
pub open spec fn lm_present(s: Seq<(i64, Lease)>, id: i64) -> bool {
    exists|i: int| 0 <= i < s.len() && s[i].0 == id
}

/// The lease stored for `id` (meaningful when ids are distinct).
pub open spec fn lm_value(s: Seq<(i64, Lease)>, id: i64) -> LeaseData {
    s[choose|i: int| 0 <= i < s.len() && s[i].0 == id].1@
}

/// The map described by the lease list.
pub open spec fn lm_map(s: Seq<(i64, Lease)>) -> Map<i64, LeaseData> {
    Map::new(|id: i64| lm_present(s, id), |id: i64| lm_value(s, id))
}

/// No id twice in the lease list.
pub open spec fn lm_distinct(s: Seq<(i64, Lease)>) -> bool {
    forall|i: int, j: int| 0 <= i < j < s.len() ==> s[i].0 != s[j].0
}

/// True iff some entry of the item list carries the key `k`.
pub open spec fn im_present(s: Seq<(Vec<u8>, i64)>, k: Seq<u8>) -> bool {
    exists|i: int| 0 <= i < s.len() && s[i].0@ == k
}

/// The lease id stored for key `k` (meaningful when keys are distinct).
pub open spec fn im_value(s: Seq<(Vec<u8>, i64)>, k: Seq<u8>) -> i64 {
    s[choose|i: int| 0 <= i < s.len() && s[i].0@ == k].1
}

/// The map described by the item list.
pub open spec fn im_map(s: Seq<(Vec<u8>, i64)>) -> Map<Seq<u8>, i64> {
    Map::new(|k: Seq<u8>| im_present(s, k), |k: Seq<u8>| im_value(s, k))
}

/// No key twice in the item list.
pub open spec fn im_distinct(s: Seq<(Vec<u8>, i64)>) -> bool {
    forall|i: int, j: int| 0 <= i < j < s.len() ==> s[i].0@ != s[j].0@
}

// ---------------------------------------------------------------------------
// Lemmas relating list edits to map edits.
// ---------------------------------------------------------------------------

proof fn lm_value_at(s: Seq<(i64, Lease)>, i: int)
    requires
        lm_distinct(s),
        0 <= i < s.len(),
    ensures
        lm_map(s).contains_key(s[i].0),
        lm_map(s)[s[i].0] == s[i].1@,
{
    let id = s[i].0;
    assert(lm_present(s, id));
    let j = choose|j: int| 0 <= j < s.len() && s[j].0 == id;
    if i != j {
        assert(s[i].0 != s[j].0);
    }
}

proof fn lm_update_view(s1: Seq<(i64, Lease)>, s2: Seq<(i64, Lease)>, i: int, l: Lease)
    requires
        lm_distinct(s1),
        0 <= i < s1.len(),
        s2 == s1.update(i, (s1[i].0, l)),
    ensures
        lm_distinct(s2),
        lm_map(s2) == lm_map(s1).insert(s1[i].0, l@),
{
    let id = s1[i].0;
    assert forall|k: i64| #[trigger] lm_present(s2, k) implies lm_map(s1).insert(id, l@).contains_key(
        k,
    ) by {
        let w = choose|w: int| 0 <= w < s2.len() && s2[w].0 == k;
        if w != i {
            assert(s1[w].0 == k);
        }
    }
    assert forall|k: i64| lm_map(s1).insert(id, l@).contains_key(k) implies #[trigger] lm_present(
        s2,
        k,
    ) by {
        if k == id {
            assert(s2[i].0 == k);
        } else {
            let w = choose|w: int| 0 <= w < s1.len() && s1[w].0 == k;
            assert(s2[w].0 == k);
        }
    }
    assert forall|k: i64| #[trigger] lm_map(s2).contains_key(k) implies lm_map(s2)[k] == lm_map(
        s1,
    ).insert(id, l@)[k] by {
        let w = choose|w: int| 0 <= w < s2.len() && s2[w].0 == k;
        lm_value_at(s2, w);
        if k != id {
            assert(s1[w].0 == k);
            lm_value_at(s1, w);
        } else {
            if w != i {
                assert(s1[w].0 == s1[i].0);
            }
            assert(lm_map(s2)[k] == l@);
        }
    }
    assert(lm_map(s2) =~= lm_map(s1).insert(id, l@));
}

proof fn lm_push_view(s: Seq<(i64, Lease)>, id: i64, l: Lease)
    requires
        lm_distinct(s),
        !lm_present(s, id),
    ensures
        lm_distinct(s.push((id, l))),
        lm_map(s.push((id, l))) == lm_map(s).insert(id, l@),
{
    let s2 = s.push((id, l));
    let n = s.len() as int;
    assert(s2[n].0 == id);
    assert forall|k: i64| #[trigger] lm_present(s2, k) implies lm_map(s).insert(id, l@).contains_key(
        k,
    ) by {
        let w = choose|w: int| 0 <= w < s2.len() && s2[w].0 == k;
        if w < n {
            assert(s[w].0 == k);
        }
    }
    assert forall|k: i64| lm_map(s).insert(id, l@).contains_key(k) implies #[trigger] lm_present(
        s2,
        k,
    ) by {
        if k != id {
            let w = choose|w: int| 0 <= w < s.len() && s[w].0 == k;
            assert(s2[w].0 == k);
        }
    }
    assert forall|k: i64| #[trigger] lm_map(s2).contains_key(k) implies lm_map(s2)[k] == lm_map(
        s,
    ).insert(id, l@)[k] by {
        let w = choose|w: int| 0 <= w < s2.len() && s2[w].0 == k;
        lm_value_at(s2, w);
        if k != id {
            assert(w < n);
            assert(s[w].0 == k);
            lm_value_at(s, w);
        } else {
            if w < n {
                assert(lm_present(s, id));
            }
            assert(lm_map(s2)[k] == l@);
        }
    }
    assert(lm_map(s2) =~= lm_map(s).insert(id, l@));
}

proof fn lm_remove_view(s: Seq<(i64, Lease)>, i: int)
    requires
        lm_distinct(s),
        0 <= i < s.len(),
    ensures
        lm_distinct(s.remove(i)),
        lm_map(s.remove(i)) == lm_map(s).remove(s[i].0),
{
    let s2 = s.remove(i);
    let id = s[i].0;
    assert forall|k: i64| #[trigger] lm_present(s2, k) implies lm_map(s).remove(id).contains_key(
        k,
    ) by {
        let w = choose|w: int| 0 <= w < s2.len() && s2[w].0 == k;
        if w < i {
            assert(s[w].0 == k);
            assert(k != id);
        } else {
            assert(s[w + 1].0 == k);
            assert(k != id);
        }
    }
    assert forall|k: i64| lm_map(s).remove(id).contains_key(k) implies #[trigger] lm_present(
        s2,
        k,
    ) by {
        let w = choose|w: int| 0 <= w < s.len() && s[w].0 == k;
        if w < i {
            assert(s2[w].0 == k);
        } else {
            assert(w != i);
            assert(s2[w - 1].0 == k);
        }
    }
    assert forall|k: i64| #[trigger] lm_map(s2).contains_key(k) implies lm_map(s2)[k] == lm_map(
        s,
    ).remove(id)[k] by {
        let w = choose|w: int| 0 <= w < s2.len() && s2[w].0 == k;
        lm_value_at(s2, w);
        if w < i {
            lm_value_at(s, w);
        } else {
            lm_value_at(s, w + 1);
        }
    }
    assert(lm_map(s2) =~= lm_map(s).remove(id));
}

proof fn im_value_at(s: Seq<(Vec<u8>, i64)>, i: int)
    requires
        im_distinct(s),
        0 <= i < s.len(),
    ensures
        im_map(s).contains_key(s[i].0@),
        im_map(s)[s[i].0@] == s[i].1,
{
    let k = s[i].0@;
    assert(im_present(s, k));
    let j = choose|j: int| 0 <= j < s.len() && s[j].0@ == k;
    if i != j {
        assert(s[i].0@ != s[j].0@);
    }
}

proof fn im_push_view(s: Seq<(Vec<u8>, i64)>, key: Vec<u8>, id: i64)
    requires
        im_distinct(s),
        !im_present(s, key@),
    ensures
        im_distinct(s.push((key, id))),
        im_map(s.push((key, id))) == im_map(s).insert(key@, id),
{
    let s2 = s.push((key, id));
    let n = s.len() as int;
    assert(s2[n].0@ == key@);
    assert forall|k: Seq<u8>| #[trigger] im_present(s2, k) implies im_map(s).insert(
        key@,
        id,
    ).contains_key(k) by {
        let w = choose|w: int| 0 <= w < s2.len() && s2[w].0@ == k;
        if w < n {
            assert(s[w].0@ == k);
        }
    }
    assert forall|k: Seq<u8>| im_map(s).insert(key@, id).contains_key(k)
        implies #[trigger] im_present(s2, k) by {
        if k != key@ {
            let w = choose|w: int| 0 <= w < s.len() && s[w].0@ == k;
            assert(s2[w].0@ == k);
        }
    }
    assert forall|k: Seq<u8>| #[trigger] im_map(s2).contains_key(k) implies im_map(s2)[k] == im_map(
        s,
    ).insert(key@, id)[k] by {
        let w = choose|w: int| 0 <= w < s2.len() && s2[w].0@ == k;
        im_value_at(s2, w);
        if k != key@ {
            assert(w < n);
            assert(s[w].0@ == k);
            im_value_at(s, w);
        } else {
            if w < n {
                assert(im_present(s, key@));
            }
            assert(im_map(s2)[k] == id);
        }
    }
    assert(im_map(s2) =~= im_map(s).insert(key@, id));
}

proof fn im_update_view(s1: Seq<(Vec<u8>, i64)>, s2: Seq<(Vec<u8>, i64)>, i: int, id: i64)
    requires
        im_distinct(s1),
        0 <= i < s1.len(),
        s2 == s1.update(i, (s1[i].0, id)),
    ensures
        im_distinct(s2),
        im_map(s2) == im_map(s1).insert(s1[i].0@, id),
{
    let key = s1[i].0@;
    assert forall|k: Seq<u8>| #[trigger] im_present(s2, k) implies im_map(s1).insert(
        key,
        id,
    ).contains_key(k) by {
        let w = choose|w: int| 0 <= w < s2.len() && s2[w].0@ == k;
        if w != i {
            assert(s1[w].0@ == k);
        }
    }
    assert forall|k: Seq<u8>| im_map(s1).insert(key, id).contains_key(k)
        implies #[trigger] im_present(s2, k) by {
        if k == key {
            assert(s2[i].0@ == k);
        } else {
            let w = choose|w: int| 0 <= w < s1.len() && s1[w].0@ == k;
            assert(s2[w].0@ == k);
        }
    }
    assert forall|k: Seq<u8>| #[trigger] im_map(s2).contains_key(k) implies im_map(s2)[k] == im_map(
        s1,
    ).insert(key, id)[k] by {
        let w = choose|w: int| 0 <= w < s2.len() && s2[w].0@ == k;
        im_value_at(s2, w);
        if k != key {
            assert(s1[w].0@ == k);
            im_value_at(s1, w);
        } else {
            if w != i {
                assert(s1[w].0@ == s1[i].0@);
            }
            assert(im_map(s2)[k] == id);
        }
    }
    assert(im_map(s2) =~= im_map(s1).insert(key, id));
}

proof fn im_remove_view(s: Seq<(Vec<u8>, i64)>, i: int)
    requires
        im_distinct(s),
        0 <= i < s.len(),
    ensures
        im_distinct(s.remove(i)),
        im_map(s.remove(i)) == im_map(s).remove(s[i].0@),
{
    let s2 = s.remove(i);
    let key = s[i].0@;
    assert forall|k: Seq<u8>| #[trigger] im_present(s2, k) implies im_map(s).remove(
        key,
    ).contains_key(k) by {
        let w = choose|w: int| 0 <= w < s2.len() && s2[w].0@ == k;
        if w < i {
            assert(s[w].0@ == k);
            assert(k != key);
        } else {
            assert(s[w + 1].0@ == k);
            assert(k != key);
        }
    }
    assert forall|k: Seq<u8>| im_map(s).remove(key).contains_key(k) implies #[trigger] im_present(
        s2,
        k,
    ) by {
        let w = choose|w: int| 0 <= w < s.len() && s[w].0@ == k;
        if w < i {
            assert(s2[w].0@ == k);
        } else {
            assert(w != i);
            assert(s2[w - 1].0@ == k);
        }
    }
    assert forall|k: Seq<u8>| #[trigger] im_map(s2).contains_key(k) implies im_map(s2)[k] == im_map(
        s,
    ).remove(key)[k] by {
        let w = choose|w: int| 0 <= w < s2.len() && s2[w].0@ == k;
        im_value_at(s2, w);
        if w < i {
            im_value_at(s, w);
        } else {
            im_value_at(s, w + 1);
        }
    }
    assert(im_map(s2) =~= im_map(s).remove(key));
}

// ---------------------------------------------------------------------------
// The abstract state and its invariants.
// ---------------------------------------------------------------------------

/// Mathematical model of the whole collection.
#[verifier::ext_equal]
pub struct CollectionView {
    /// Lease id to lease record.
    pub leases: Map<i64, LeaseData>,
    /// Attached key to the id of the lease that owns it.
    pub items: Map<Seq<u8>, i64>,
    /// Lease id to queued expiry instant.
    pub queue: Map<i64, u64>,
}

/// Consistency of the three maps:
/// every lease is well formed and keyed by its own non-zero id;
/// every reverse entry names a live lease that holds its key;
/// every key held by a lease has its reverse entry;
/// every queue entry names a live lease and carries its exact expiry.
pub open spec fn collection_inv(c: CollectionView) -> bool {
    &&& forall|id: i64| #[trigger] c.leases.contains_key(id)
        ==> lease_wf(c.leases[id]) && c.leases[id].id == id
    &&& forall|k: Seq<u8>| #[trigger] c.items.contains_key(k)
        ==> c.leases.contains_key(c.items[k]) && contains_key(c.leases[c.items[k]].keys, k)
    &&& forall|id: i64, k: Seq<u8>|
        c.leases.contains_key(id) && #[trigger] contains_key(c.leases[id].keys, k)
            ==> c.items.contains_key(k) && c.items[k] == id
    &&& forall|id: i64| #[trigger] c.queue.contains_key(id)
        ==> c.leases.contains_key(id) && c.leases[id].expiry == Some(c.queue[id])
}

/// Every lease with a finite expiry is queued. This holds after every
/// mutating operation; draining the expired ids gives it up for exactly the
/// drained leases until they are revoked.
pub open spec fn queue_complete(c: CollectionView) -> bool {
    forall|id: i64|
        #[trigger] c.leases.contains_key(id) && c.leases[id].expiry is Some
            ==> c.queue.contains_key(id)
}

/// A time to live clamped from below to the minimum.
pub open spec fn clamp_ttl(ttl: i64) -> u64 {
    if ttl < MIN_LEASE_TTL {
        MIN_LEASE_TTL as u64
    } else {
        ttl as u64
    }
}

/// The record a grant at `now` creates.
pub open spec fn granted_lease(id: i64, ttl: i64, is_leader: bool, now: u64) -> LeaseData {
    LeaseData {
        id,
        ttl: clamp_ttl(ttl),
        remaining_ttl: 0,
        expiry: if is_leader {
            Some(sat_add3(now, 0, clamp_ttl(ttl)))
        } else {
            None
        },
        keys: Seq::empty(),
    }
}

/// The collection after a grant: the new record replaces any record under
/// the same id, whose reverse entries are dropped; on the leader the queue
/// holds the new expiry, on a follower the id is not queued.
pub open spec fn spec_grant(
    c: CollectionView,
    id: i64,
    ttl: i64,
    is_leader: bool,
    now: u64,
) -> CollectionView {
    CollectionView {
        leases: c.leases.insert(id, granted_lease(id, ttl, is_leader, now)),
        items: if c.leases.contains_key(id) {
            c.items.remove_keys(c.leases[id].keys.to_set())
        } else {
            c.items
        },
        queue: if is_leader {
            c.queue.insert(id, sat_add3(now, 0, clamp_ttl(ttl)))
        } else {
            c.queue.remove(id)
        },
    }
}

/// The collection after a revoke: only the lease record and its queue entry
/// go; the reverse entries stay for the caller's cascade.
pub open spec fn spec_revoke(c: CollectionView, id: i64) -> CollectionView {
    CollectionView { leases: c.leases.remove(id), items: c.items, queue: c.queue.remove(id) }
}

/// The collection after a detach: the key leaves the lease's key set, and
/// its reverse entry goes when the lease held it. A missing lease leaves
/// the collection unchanged (the call fails).
pub open spec fn spec_detach(c: CollectionView, id: i64, k: Seq<u8>) -> CollectionView {
    if !c.leases.contains_key(id) {
        c
    } else {
        CollectionView {
            leases: c.leases.insert(
                id,
                (LeaseData { keys: remove_key_seq(c.leases[id].keys, k), ..c.leases[id] }),
            ),
            items: if contains_key(c.leases[id].keys, k) {
                c.items.remove(k)
            } else {
                c.items
            },
            queue: c.queue,
        }
    }
}

/// The state an attach goes through first: a key owned by another lease is
/// detached there before it moves.
pub open spec fn spec_attach_mid(c: CollectionView, id: i64, k: Seq<u8>) -> CollectionView {
    if c.items.contains_key(k) && c.items[k] != id {
        spec_detach(c, c.items[k], k)
    } else {
        c
    }
}

/// The collection after an attach: the key joins the lease's key set and
/// the reverse entry points at it; a key owned by another lease moves. A
/// missing lease leaves the collection unchanged (the call fails).
pub open spec fn spec_attach(c: CollectionView, id: i64, k: Seq<u8>) -> CollectionView {
    if !c.leases.contains_key(id) {
        c
    } else {
        let c1 = spec_attach_mid(c, id, k);
        CollectionView {
            leases: c1.leases.insert(
                id,
                (LeaseData {
                    keys: if contains_key(c1.leases[id].keys, k) {
                        c1.leases[id].keys
                    } else {
                        c1.leases[id].keys.push(k)
                    },
                    ..c1.leases[id]
                }),
            ),
            items: c1.items.insert(k, id),
            queue: c1.queue,
        }
    }
}

/// The expiry a renewal or a promotion at `now` gives a lease.
pub open spec fn refreshed_expiry(l: LeaseData, extend: u64, now: u64) -> u64 {
    sat_add3(now, extend, effective_ttl(l))
}

/// The collection after a successful renewal: the lease's expiry and its
/// queue entry both move to `now` plus its effective time to live.
pub open spec fn spec_renew(c: CollectionView, id: i64, now: u64) -> CollectionView {
    let e = refreshed_expiry(c.leases[id], 0, now);
    CollectionView {
        leases: c.leases.insert(id, (LeaseData { expiry: Some(e), ..c.leases[id] })),
        items: c.items,
        queue: c.queue.insert(id, e),
    }
}

/// The collection after a demotion: every lease loses its expiry and the
/// queue empties.
pub open spec fn spec_demote(c: CollectionView) -> CollectionView {
    CollectionView {
        leases: Map::new(
            |id: i64| c.leases.contains_key(id),
            |id: i64| (LeaseData { expiry: None, ..c.leases[id] }),
        ),
        items: c.items,
        queue: Map::empty(),
    }
}

/// The collection after a promotion at `now` with grace `extend`: every
/// lease is refreshed with the grace and queued under its new expiry.
pub open spec fn spec_promote(c: CollectionView, extend: u64, now: u64) -> CollectionView {
    CollectionView {
        leases: Map::new(
            |id: i64| c.leases.contains_key(id),
            |id: i64| (LeaseData {
                expiry: Some(refreshed_expiry(c.leases[id], extend, now)),
                ..c.leases[id]
            }),
        ),
        items: c.items,
        queue: Map::new(
            |id: i64| c.leases.contains_key(id),
            |id: i64| refreshed_expiry(c.leases[id], extend, now),
        ),
    }
}

/// The queue after the expired entries at `now` have been drained.
pub open spec fn queue_after_expiry(q: Map<i64, u64>, now: u64) -> Map<i64, u64> {
    Map::new(|id: i64| q.contains_key(id) && q[id] > now, |id: i64| q[id])
}

/// Everything one call of the expiry drain promises, at instant `now`:
/// leases and reverse entries are untouched, the queue keeps exactly the
/// entries that have not yet expired, and the result lists each drained id
/// once, earliest expiry first, every one a live lease already expired.
pub open spec fn find_expired_post(
    c: CollectionView,
    c2: CollectionView,
    r: Seq<i64>,
    now: u64,
) -> bool {
    &&& c2.leases == c.leases
    &&& c2.items == c.items
    &&& c2.queue == queue_after_expiry(c.queue, now)
    &&& r.no_duplicates()
    &&& forall|i: int|
        0 <= i < r.len() ==> c.queue.contains_key(#[trigger] r[i]) && c.queue[r[i]] <= now
    &&& forall|id: i64| #[trigger] c.queue.contains_key(id) && c.queue[id] <= now ==> r.contains(
        id,
    )
    &&& forall|i: int, j: int| 0 <= i < j < r.len() ==> c.queue[r[i]] <= c.queue[r[j]]
    &&& forall|i: int|
        0 <= i < r.len() ==> c.leases.contains_key(#[trigger] r[i]) && lease_expired(
            c.leases[r[i]],
            now,
        )
}

/// True iff one of the first `n` entries carries the id `id`.
pub open spec fn id_in_prefix(s: Seq<(i64, Lease)>, n: int, id: i64) -> bool {
    exists|j: int| 0 <= j < n && s[j].0 == id
}

// ---------------------------------------------------------------------------
// The collection.
// ---------------------------------------------------------------------------

/// Collection of all lease-related in-memory data.
pub struct LeaseCollection {
    lease_map: Vec<(i64, Lease)>,
    item_map: Vec<(Vec<u8>, i64)>,
    expired_queue: LeaseQueue,
}

impl View for LeaseCollection {
    type V = CollectionView;

    closed spec fn view(&self) -> CollectionView {
        CollectionView {
            leases: lm_map(self.lease_map@),
            items: im_map(self.item_map@),
            queue: self.expired_queue@,
        }
    }
}

impl LeaseCollection {
    /// The representation holds each id and each key at most once.
    pub closed spec fn wf(&self) -> bool {
        &&& lm_distinct(self.lease_map@)
        &&& im_distinct(self.item_map@)
        &&& self.expired_queue.wf()
    }

    /// An empty collection.
    pub fn new() -> (r: LeaseCollection)
        ensures
            r.wf(),
            r@.leases == Map::<i64, LeaseData>::empty(),
            r@.items == Map::<Seq<u8>, i64>::empty(),
            r@.queue == Map::<i64, u64>::empty(),
            collection_inv(r@),
            queue_complete(r@),
    {
        let r = LeaseCollection {
            lease_map: Vec::new(),
            item_map: Vec::new(),
            expired_queue: LeaseQueue::new(),
        };
        proof {
            assert(r@.leases =~= Map::<i64, LeaseData>::empty());
            assert(r@.items =~= Map::<Seq<u8>, i64>::empty());
        }
        r
    }

    /// Position of the record for `lease_id`, if present.
    fn lease_find(&self, lease_id: i64) -> (r: Option<usize>)
        ensures
            match r {
                Some(i) => 0 <= i < self.lease_map@.len() && self.lease_map@[i as int].0 == lease_id,
                None => !lm_present(self.lease_map@, lease_id),
            },
    {
        let mut i: usize = 0;
        while i < self.lease_map.len()
            invariant
                0 <= i <= self.lease_map@.len(),
                forall|j: int| 0 <= j < i ==> self.lease_map@[j].0 != lease_id,
            decreases self.lease_map@.len() - i,
        {
            if self.lease_map[i].0 == lease_id {
                return Some(i);
            }
            i = i + 1;
        }
        None
    }

    /// Position of the reverse entry for `key`, if present.
    fn item_find(&self, key: &[u8]) -> (r: Option<usize>)
        ensures
            match r {
                Some(i) => 0 <= i < self.item_map@.len() && self.item_map@[i as int].0@ == key@,
                None => !im_present(self.item_map@, key@),
            },
    {
        let mut i: usize = 0;
        while i < self.item_map.len()
            invariant
                0 <= i <= self.item_map@.len(),
                forall|j: int| 0 <= j < i ==> self.item_map@[j].0@ != key@,
            decreases self.item_map@.len() - i,
        {
            if crate::bytes::bytes_eq(self.item_map[i].0.as_slice(), key) {
                return Some(i);
            }
            i = i + 1;
        }
        None
    }

    /// Check if a lease exists.
    pub fn contains_lease(&self, lease_id: i64) -> (r: bool)
        requires
            self.wf(),
        ensures
            r == self@.leases.contains_key(lease_id),
    {
        match self.lease_find(lease_id) {
            Some(i) => {
                proof {
                    lm_value_at(self.lease_map@, i as int);
                }
                true
            },
            None => false,
        }
    }

    /// A copy of the record for `lease_id`, if one is live.
    pub fn look_up(&self, lease_id: i64) -> (r: Option<Lease>)
        requires
            self.wf(),
        ensures
            match r {
                Some(l) => self@.leases.contains_key(lease_id) && l@ == self@.leases[lease_id],
                None => !self@.leases.contains_key(lease_id),
            },
    {
        match self.lease_find(lease_id) {
            Some(i) => {
                proof {
                    lm_value_at(self.lease_map@, i as int);
                }
                Some(self.lease_map[i].1.duplicate())
            },
            None => None,
        }
    }

    /// The id of the lease that owns `key`, or zero when the key is
    /// unattached.
    pub fn get_lease(&self, key: &[u8]) -> (r: i64)
        requires
            self.wf(),
        ensures
            r == (if self@.items.contains_key(key@) {
                self@.items[key@]
            } else {
                0
            }),
    {
        match self.item_find(key) {
            Some(i) => {
                proof {
                    im_value_at(self.item_map@, i as int);
                }
                self.item_map[i].1
            },
            None => 0,
        }
    }

    /// Drop the reverse entry for `key`, if any.
    fn item_remove(&mut self, key: &[u8])
        requires
            old(self).wf(),
        ensures
            final(self).wf(),
            final(self)@ == (CollectionView { items: old(self)@.items.remove(key@), ..old(self)@ }),
            final(self).lease_map == old(self).lease_map,
            final(self).expired_queue == old(self).expired_queue,
    {
        match self.item_find(key) {
            Some(i) => {
                proof {
                    im_remove_view(self.item_map@, i as int);
                }
                self.item_map.remove(i);
            },
            None => {
                proof {
                    assert(self@.items =~= old(self)@.items.remove(key@));
                    assert(self@ =~= (CollectionView {
                        items: old(self)@.items.remove(key@),
                        ..old(self)@
                    }));
                }
            },
        }
    }

    /// Grant a lease: build the record, start its timer when this node
    /// leads, and store it, replacing any record under the same id. The
    /// persisted form of the new record is returned.
    pub fn grant_at(&mut self, lease_id: i64, ttl: i64, is_leader: bool, now: u64) -> (pb: PbLease)
        requires
            old(self).wf(),
            collection_inv(old(self)@),
            lease_id != 0,
        ensures
            final(self).wf(),
            final(self)@ == spec_grant(old(self)@, lease_id, ttl, is_leader, now),
            collection_inv(final(self)@),
            queue_complete(old(self)@) ==> queue_complete(final(self)@),
            pb == (PbLease { id: lease_id, ttl: clamp_ttl(ttl) as i64, remaining_ttl: 0 }),
    {
        // Drop any record granted earlier under the same id, with its
        // reverse entries.
        match self.lease_find(lease_id) {
            Some(i) => {
                proof {
                    lm_value_at(self.lease_map@, i as int);
                }
                let keys = self.lease_map[i].1.keys();
                let ghost key_seq = self.lease_map@[i as int].1@.keys;
                let ghost items0 = self@.items;
                let ghost lm0 = self.lease_map@;
                let ghost q0 = self@.queue;
                let mut j: usize = 0;
                proof {
                    assert(self@.items =~= items0.remove_keys(key_seq.take(0int).to_set()));
                }
                while j < keys.len()
                    invariant
                        self.wf(),
                        keys.deep_view() == key_seq,
                        0 <= j <= key_seq.len(),
                        self.lease_map@ == lm0,
                        self@.queue == q0,
                        self@.items == items0.remove_keys(key_seq.take(j as int).to_set()),
                    decreases key_seq.len() - j,
                {
                    self.item_remove(keys[j].as_slice());
                    proof {
                        assert(keys[j as int]@ == key_seq[j as int]);
                        let long = key_seq.take(j + 1);
                        let short = key_seq.take(j as int);
                        assert(long.to_set() =~= short.to_set().insert(key_seq[j as int])) by {
                            assert forall|x: Seq<u8>| long.to_set().contains(x)
                                implies short.to_set().contains(x) || x == key_seq[j as int] by {
                                let w = choose|w: int| 0 <= w < long.len() && long[w] == x;
                                if w < j {
                                    assert(short[w] == x);
                                }
                            }
                            assert forall|x: Seq<u8>| short.to_set().contains(x)
                                implies long.to_set().contains(x) by {
                                let w = choose|w: int| 0 <= w < short.len() && short[w] == x;
                                assert(long[w] == x);
                            }
                            assert(long.to_set().contains(key_seq[j as int])) by {
                                assert(long[j as int] == key_seq[j as int]);
                            }
                        }
                        assert(self@.items =~= items0.remove_keys(key_seq.take(j + 1).to_set()));
                    }
                    j = j + 1;
                }
                proof {
                    assert(key_seq.take(key_seq.len() as int) =~= key_seq);
                    lm_remove_view(self.lease_map@, i as int);
                }
                self.lease_map.remove(i);
            },
            None => {},
        }
        // Build and store the fresh record.
        let clamped: u64 = if ttl < MIN_LEASE_TTL {
            MIN_LEASE_TTL as u64
        } else {
            ttl as u64
        };
        let mut lease = Lease::new(lease_id, clamped);
        if is_leader {
            let expiry = lease.refresh_at(0, now);
            self.expired_queue.insert(lease_id, expiry);
        } else {
            self.expired_queue.remove(lease_id);
        }
        let pb = PbLease { id: lease.id(), ttl: lease.ttl() as i64, remaining_ttl: lease.remaining_ttl() as i64 };
        proof {
            assert(!lm_map(self.lease_map@).contains_key(lease_id));
            lm_push_view(self.lease_map@, lease_id, lease);
        }
        self.lease_map.push((lease_id, lease));
        proof {
            let c2 = spec_grant(old(self)@, lease_id, ttl, is_leader, now);
            assert(self@ =~= c2);
            lemma_grant_preserves(old(self)@, lease_id, ttl, is_leader, now);
        }
        pb
    }

    /// Revoke a lease: drop its record and its queue entry, returning a copy
    /// of the removed record. The reverse entries of its keys are left for
    /// the caller's cascade.
    pub fn revoke(&mut self, lease_id: i64) -> (r: Option<Lease>)
        requires
            old(self).wf(),
            collection_inv(old(self)@),
        ensures
            final(self).wf(),
            final(self)@ == spec_revoke(old(self)@, lease_id),
            (!old(self)@.leases.contains_key(lease_id) || old(self)@.leases[lease_id].keys.len()
                == 0) ==> collection_inv(final(self)@),
            queue_complete(old(self)@) ==> queue_complete(final(self)@),
            match r {
                Some(l) => old(self)@.leases.contains_key(lease_id) && l@ == old(self)@.leases[lease_id],
                None => !old(self)@.leases.contains_key(lease_id),
            },
    {
        let r = match self.lease_find(lease_id) {
            Some(i) => {
                proof {
                    lm_value_at(self.lease_map@, i as int);
                    lm_remove_view(self.lease_map@, i as int);
                }
                let pair = self.lease_map.remove(i);
                Some(pair.1)
            },
            None => None,
        };
        self.expired_queue.remove(lease_id);
        proof {
            assert(self@ =~= spec_revoke(old(self)@, lease_id));
            lemma_revoke_preserves(old(self)@, lease_id);
        }
        r
    }

    /// Detach `key` from lease `lease_id`; fails iff the lease is absent.
    pub fn detach(&mut self, lease_id: i64, key: &[u8]) -> (r: Result<(), ExecuteError>)
        requires
            old(self).wf(),
            collection_inv(old(self)@),
        ensures
            final(self).wf(),
            final(self)@ == spec_detach(old(self)@, lease_id, key@),
            collection_inv(final(self)@),
            queue_complete(old(self)@) ==> queue_complete(final(self)@),
            r == (if old(self)@.leases.contains_key(lease_id) {
                Ok::<(), ExecuteError>(())
            } else {
                Err::<(), ExecuteError>(ExecuteError::LeaseNotFound(lease_id))
            }),
    {
        match self.lease_find(lease_id) {
            None => {
                proof {
                    assert(!self@.leases.contains_key(lease_id));
                }
                Err(ExecuteError::LeaseNotFound(lease_id))
            },
            Some(i) => {
                proof {
                    lm_value_at(self.lease_map@, i as int);
                    lm_remove_view(self.lease_map@, i as int);
                }
                let had = self.lease_map[i].1.has_key(key);
                let mut pair = self.lease_map.remove(i);
                pair.1.remove_key(key);
                proof {
                    assert(!lm_map(self.lease_map@).contains_key(lease_id));
                    lm_push_view(self.lease_map@, lease_id, pair.1);
                }
                self.lease_map.push((lease_id, pair.1));
                if had {
                    self.item_remove(key);
                }
                proof {
                    assert(self@ =~= spec_detach(old(self)@, lease_id, key@));
                    lemma_detach_preserves(old(self)@, lease_id, key@);
                }
                Ok(())
            },
        }
    }

    /// Attach `key` to lease `lease_id`; fails iff the lease is absent. A
    /// key owned by another lease moves to this one.
    pub fn attach(&mut self, lease_id: i64, key: Vec<u8>) -> (r: Result<(), ExecuteError>)
        requires
            old(self).wf(),
            collection_inv(old(self)@),
        ensures
            final(self).wf(),
            final(self)@ == spec_attach(old(self)@, lease_id, key@),
            collection_inv(final(self)@),
            queue_complete(old(self)@) ==> queue_complete(final(self)@),
            r == (if old(self)@.leases.contains_key(lease_id) {
                Ok::<(), ExecuteError>(())
            } else {
                Err::<(), ExecuteError>(ExecuteError::LeaseNotFound(lease_id))
            }),
    {
        if self.lease_find(lease_id).is_none() {
            proof {
                assert(!self@.leases.contains_key(lease_id));
            }
            return Err(ExecuteError::LeaseNotFound(lease_id));
        }
        // A key owned by another lease moves: detach it there first.
        let owner = self.get_lease(key.as_slice());
        let ghost mid = spec_attach_mid(old(self)@, lease_id, key@);
        if owner != 0 && owner != lease_id {
            proof {
                assert(old(self)@.items.contains_key(key@));
                assert(old(self)@.leases.contains_key(owner));
            }
            let moved = self.detach(owner, key.as_slice());
            proof {
                assert(self@ == mid);
            }
        } else {
            proof {
                assert(old(self)@.items.contains_key(key@) ==> old(self)@.items[key@] == lease_id);
                assert(self@ == mid);
            }
        }
        // Record the key on the lease and point the reverse entry at it.
        match self.lease_find(lease_id) {
            Some(i) => {
                proof {
                    lm_value_at(self.lease_map@, i as int);
                    lm_remove_view(self.lease_map@, i as int);
                }
                let key2 = clone_bytes(&key);
                let mut pair = self.lease_map.remove(i);
                pair.1.insert_key(key2);
                proof {
                    assert(!lm_map(self.lease_map@).contains_key(lease_id));
                    lm_push_view(self.lease_map@, lease_id, pair.1);
                }
                self.lease_map.push((lease_id, pair.1));
                // Reverse entry.
                match self.item_find(key.as_slice()) {
                    Some(j) => {
                        let ghost im1 = self.item_map@;
                        proof {
                            im_update_view(
                                im1,
                                im1.update(j as int, (im1[j as int].0, lease_id)),
                                j as int,
                                lease_id,
                            );
                        }
                        let entry = self.item_map.remove(j);
                        self.item_map.insert(j, (entry.0, lease_id));
                        proof {
                            assert(self.item_map@ =~= im1.update(
                                j as int,
                                (im1[j as int].0, lease_id),
                            ));
                        }
                    },
                    None => {
                        proof {
                            im_push_view(self.item_map@, key, lease_id);
                        }
                        self.item_map.push((key, lease_id));
                    },
                }
                proof {
                    assert(self@ =~= spec_attach(old(self)@, lease_id, key@));
                    lemma_attach_preserves(old(self)@, lease_id, key@);
                }
                Ok(())
            },
            None => {
                proof {
                    assert(!self@.leases.contains_key(lease_id));
                    assert(old(self)@.leases.contains_key(lease_id));
                    assert(mid.leases.contains_key(lease_id));
                    assert(false);
                }
                Err(ExecuteError::LeaseNotFound(lease_id))
            },
        }
    }

    /// Renew lease `lease_id` at `now`: push its expiry out by its time to
    /// live and return that time to live in seconds. Fails with not-found
    /// when the lease is absent and with expired when its expiry has passed.
    pub fn renew_at(&mut self, lease_id: i64, now: u64) -> (r: Result<i64, ExecuteError>)
        requires
            old(self).wf(),
            collection_inv(old(self)@),
        ensures
            final(self).wf(),
            collection_inv(final(self)@),
            queue_complete(old(self)@) ==> queue_complete(final(self)@),
            match r {
                Ok(ttl) => {
                    &&& old(self)@.leases.contains_key(lease_id)
                    &&& !lease_expired(old(self)@.leases[lease_id], now)
                    &&& ttl == old(self)@.leases[lease_id].ttl as i64
                    &&& final(self)@ == spec_renew(old(self)@, lease_id, now)
                },
                Err(e) => {
                    &&& final(self)@ == old(self)@
                    &&& (e == ExecuteError::LeaseNotFound(lease_id) || e
                        == ExecuteError::LeaseExpired(lease_id))
                    &&& (e == ExecuteError::LeaseNotFound(lease_id) <==> !old(
                        self,
                    )@.leases.contains_key(lease_id))
                    &&& (e == ExecuteError::LeaseExpired(lease_id) <==> old(
                        self,
                    )@.leases.contains_key(lease_id) && lease_expired(
                        old(self)@.leases[lease_id],
                        now,
                    ))
                },
            },
    {
        match self.lease_find(lease_id) {
            None => {
                proof {
                    assert(!self@.leases.contains_key(lease_id));
                }
                Err(ExecuteError::LeaseNotFound(lease_id))
            },
            Some(i) => {
                proof {
                    lm_value_at(self.lease_map@, i as int);
                }
                if self.lease_map[i].1.expired_at(now) {
                    return Err(ExecuteError::LeaseExpired(lease_id));
                }
                proof {
                    lm_remove_view(self.lease_map@, i as int);
                }
                let mut pair = self.lease_map.remove(i);
                let expiry = pair.1.refresh_at(0, now);
                let ttl = pair.1.ttl();
                proof {
                    assert(!lm_map(self.lease_map@).contains_key(lease_id));
                    lm_push_view(self.lease_map@, lease_id, pair.1);
                }
                self.lease_map.push((lease_id, pair.1));
                self.expired_queue.insert(lease_id, expiry);
                proof {
                    assert(self@ =~= spec_renew(old(self)@, lease_id, now));
                    lemma_renew_preserves(old(self)@, lease_id, now);
                }
                Ok(ttl as i64)
            },
        }
    }

    /// Demote this node: every lease keeps its record but loses its timer,
    /// and the queue empties.
    pub fn demote(&mut self)
        requires
            old(self).wf(),
            collection_inv(old(self)@),
        ensures
            final(self).wf(),
            final(self)@ == spec_demote(old(self)@),
            collection_inv(final(self)@),
            queue_complete(final(self)@),
    {
        let ghost lm0 = self.lease_map@;
        let ghost im0 = self.item_map@;
        let mut i: usize = 0;
        while i < self.lease_map.len()
            invariant
                self.wf(),
                self.item_map@ == im0,
                lm_distinct(lm0),
                self.lease_map@.len() == lm0.len(),
                0 <= i <= lm0.len(),
                forall|j: int| 0 <= j < lm0.len() ==> self.lease_map@[j].0 == #[trigger] lm0[j].0,
                forall|j: int|
                    0 <= j < i ==> self.lease_map@[j].1@ == (LeaseData {
                        expiry: None,
                        ..#[trigger] lm0[j].1@
                    }),
                forall|j: int| i <= j < lm0.len() ==> self.lease_map@[j].1 == #[trigger] lm0[j].1,
            decreases lm0.len() - i,
        {
            let ghost before = self.lease_map@;
            let mut pair = self.lease_map.remove(i);
            pair.1.forever();
            self.lease_map.insert(i, pair);
            proof {
                assert(self.lease_map@ =~= before.update(i as int, (before[i as int].0, pair.1)));
            }
            i = i + 1;
        }
        self.expired_queue.clear();
        proof {
            let cur = self.lease_map@;
            let target = spec_demote(old(self)@).leases;
            assert forall|id: i64| #[trigger] lm_map(cur).contains_key(id)
                implies target.contains_key(id) && lm_map(cur)[id] == target[id] by {
                let w = choose|w: int| 0 <= w < cur.len() && cur[w].0 == id;
                lm_value_at(cur, w);
                lm_value_at(lm0, w);
                assert(lm_present(lm0, id));
            }
            assert forall|id: i64| target.contains_key(id) implies #[trigger] lm_map(cur).contains_key(
                id,
            ) by {
                let w = choose|w: int| 0 <= w < lm0.len() && lm0[w].0 == id;
                assert(cur[w].0 == id);
            }
            assert(lm_map(cur) =~= target);
            assert(self@.queue =~= Map::<i64, u64>::empty());
            assert(self@ =~= spec_demote(old(self)@));
            lemma_demote_preserves(old(self)@);
        }
    }

    /// Promote this node at `now`: every lease is refreshed with the grace
    /// period `extend` and queued under its new expiry.
    pub fn promote_at(&mut self, extend: u64, now: u64)
        requires
            old(self).wf(),
            collection_inv(old(self)@),
        ensures
            final(self).wf(),
            final(self)@ == spec_promote(old(self)@, extend, now),
            collection_inv(final(self)@),
            queue_complete(final(self)@),
    {
        let ghost lm0 = self.lease_map@;
        let ghost im0 = self.item_map@;
        let ghost q0 = self@.queue;
        let mut i: usize = 0;
        while i < self.lease_map.len()
            invariant
                self.wf(),
                self.item_map@ == im0,
                lm_distinct(lm0),
                self.lease_map@.len() == lm0.len(),
                0 <= i <= lm0.len(),
                forall|j: int| 0 <= j < lm0.len() ==> self.lease_map@[j].0 == #[trigger] lm0[j].0,
                forall|j: int|
                    0 <= j < i ==> self.lease_map@[j].1@ == (LeaseData {
                        expiry: Some(refreshed_expiry(#[trigger] lm0[j].1@, extend, now)),
                        ..lm0[j].1@
                    }),
                forall|j: int| i <= j < lm0.len() ==> self.lease_map@[j].1 == #[trigger] lm0[j].1,
                forall|id: i64| #[trigger] self@.queue.contains_key(id) ==> q0.contains_key(id)
                    || id_in_prefix(lm0, i as int, id),
                forall|j: int|
                    0 <= j < i ==> self@.queue.contains_key(#[trigger] lm0[j].0)
                        && self@.queue[lm0[j].0] == refreshed_expiry(lm0[j].1@, extend, now),
                forall|id: i64| #[trigger] q0.contains_key(id) && !id_in_prefix(lm0, i as int, id)
                    ==> self@.queue.contains_key(id) && self@.queue[id] == q0[id],
            decreases lm0.len() - i,
        {
            let ghost before = self.lease_map@;
            let ghost qpre = self@.queue;
            let mut pair = self.lease_map.remove(i);
            let expiry = pair.1.refresh_at(extend, now);
            let id_e = pair.0;
            self.lease_map.insert(i, pair);
            self.expired_queue.insert(id_e, expiry);
            proof {
                assert(self.lease_map@ =~= before.update(i as int, (before[i as int].0, pair.1)));
                assert(id_e == lm0[i as int].0);
                assert(self@.queue == qpre.insert(id_e, expiry));
                assert forall|id: i64| #[trigger] q0.contains_key(id) && !id_in_prefix(
                    lm0,
                    i + 1,
                    id,
                ) implies self@.queue.contains_key(id) && self@.queue[id] == q0[id] by {
                    assert(!id_in_prefix(lm0, i as int, id)) by {
                        if id_in_prefix(lm0, i as int, id) {
                            let w = choose|w: int| 0 <= w < i && lm0[w].0 == id;
                            assert(0 <= w < i + 1 && lm0[w].0 == id);
                        }
                    }
                    assert(id != id_e) by {
                        assert(0 <= i < i + 1 && lm0[i as int].0 == id_e);
                    }
                    assert(qpre.contains_key(id) && qpre[id] == q0[id]);
                }
                assert forall|id: i64| #[trigger] self@.queue.contains_key(id)
                    implies q0.contains_key(id) || id_in_prefix(lm0, i + 1, id) by {
                    if id == id_e {
                        assert(0 <= i < i + 1 && lm0[i as int].0 == id);
                    } else {
                        assert(qpre.contains_key(id));
                        if !q0.contains_key(id) {
                            assert(id_in_prefix(lm0, i as int, id));
                            let w = choose|w: int| 0 <= w < i && lm0[w].0 == id;
                            assert(0 <= w < i + 1 && lm0[w].0 == id);
                        }
                    }
                }
                assert forall|j: int| 0 <= j < i + 1 implies self@.queue.contains_key(
                    #[trigger] lm0[j].0,
                ) && self@.queue[lm0[j].0] == refreshed_expiry(lm0[j].1@, extend, now) by {
                    if j < i {
                        assert(qpre.contains_key(lm0[j].0));
                        assert(lm0[j].0 != id_e);
                    }
                }
            }
            i = i + 1;
        }
        proof {
            let cur = self.lease_map@;
            let c0 = old(self)@;
            let target = spec_promote(c0, extend, now).leases;
            assert forall|id: i64| #[trigger] lm_map(cur).contains_key(id)
                implies target.contains_key(id) && lm_map(cur)[id] == target[id] by {
                let w = choose|w: int| 0 <= w < cur.len() && cur[w].0 == id;
                lm_value_at(cur, w);
                lm_value_at(lm0, w);
                assert(lm_present(lm0, id));
            }
            assert forall|id: i64| target.contains_key(id) implies #[trigger] lm_map(cur).contains_key(
                id,
            ) by {
                let w = choose|w: int| 0 <= w < lm0.len() && lm0[w].0 == id;
                assert(cur[w].0 == id);
            }
            assert(lm_map(cur) =~= target);
            let qtarget = spec_promote(c0, extend, now).queue;
            assert forall|id: i64| #[trigger] self@.queue.contains_key(id)
                implies qtarget.contains_key(id) && self@.queue[id] == qtarget[id] by {
                if q0.contains_key(id) && !id_in_prefix(lm0, lm0.len() as int, id) {
                    assert(c0.queue.contains_key(id));
                    assert(c0.leases.contains_key(id));
                    let w = choose|w: int| 0 <= w < lm0.len() && lm0[w].0 == id;
                    assert(id_in_prefix(lm0, lm0.len() as int, id));
                } else {
                    if !id_in_prefix(lm0, lm0.len() as int, id) {
                        assert(q0.contains_key(id));
                    }
                    let w = choose|w: int| 0 <= w < lm0.len() && lm0[w].0 == id;
                    lm_value_at(lm0, w);
                }
            }
            assert forall|id: i64| qtarget.contains_key(id) implies #[trigger] self@.queue.contains_key(
                id,
            ) by {
                let w = choose|w: int| 0 <= w < lm0.len() && lm0[w].0 == id;
            }
            assert(self@.queue =~= qtarget);
            assert(self@ =~= spec_promote(c0, extend, now));
            lemma_promote_preserves(c0, extend, now);
        }
    }

    /// Drain every queued id whose expiry has passed at `now`, earliest
    /// first, and return those that still name a live lease. The lease
    /// records themselves are untouched: the caller revokes them through
    /// consensus.
    pub fn find_expired_at(&mut self, now: u64) -> (r: Vec<i64>)
        requires
            old(self).wf(),
            collection_inv(old(self)@),
        ensures
            final(self).wf(),
            collection_inv(final(self)@),
            find_expired_post(old(self)@, final(self)@, r@, now),
    {
        let mut out: Vec<i64> = Vec::new();
        let ghost q0 = self@.queue;
        let ghost lm0 = self.lease_map@;
        let ghost im0 = self.item_map@;
        proof {
            self.expired_queue.lemma_finite();
        }
        loop
            invariant
                self.wf(),
                collection_inv(self@),
                self.lease_map@ == lm0,
                self.item_map@ == im0,
                self@.queue.dom().finite(),
                forall|id: i64| #[trigger] self@.queue.contains_key(id) ==> q0.contains_key(id)
                    && self@.queue[id] == q0[id],
                out@.no_duplicates(),
                forall|i: int|
                    0 <= i < out@.len() ==> q0.contains_key(#[trigger] out@[i]) && q0[out@[i]]
                        <= now && !self@.queue.contains_key(out@[i]),
                forall|id: i64| #[trigger] q0.contains_key(id) && !self@.queue.contains_key(id)
                    ==> out@.contains(id),
                forall|i: int, j: int| 0 <= i < j < out@.len() ==> q0[out@[i]] <= q0[out@[j]],
                forall|i: int, id: i64|
                    #![trigger out@[i], self@.queue.contains_key(id)]
                    0 <= i < out@.len() && self@.queue.contains_key(id) ==> q0[out@[i]] <= q0[id],
            ensures
                forall|id: i64| #[trigger] self@.queue.contains_key(id) ==> self@.queue[id] > now,
            decreases self@.queue.dom().len(),
        {
            match self.expired_queue.peek() {
                Some(e) => {
                    if e > now {
                        break;
                    }
                    match self.expired_queue.pop() {
                        Some(id) => {
                            proof {
                                self.expired_queue.lemma_finite();
                                assert(old(self)@.queue.dom().remove(id) =~= old(
                                    self,
                                )@.queue.dom().remove(id));
                            }
                            let present = self.contains_lease(id);
                            proof {
                                assert(present);
                                assert forall|id2: i64| #[trigger] q0.contains_key(id2)
                                    && !self@.queue.contains_key(id2) implies out@.push(id).contains(
                                    id2,
                                ) by {
                                    if id2 == id {
                                        assert(out@.push(id)[out@.len() as int] == id);
                                    } else {
                                        assert(out@.contains(id2));
                                        let w = choose|w: int|
                                            0 <= w < out@.len() && out@[w] == id2;
                                        assert(out@.push(id)[w] == id2);
                                    }
                                }
                            }
                            if present {
                                out.push(id);
                            }
                        },
                        None => {
                            proof {
                                assert(false);
                            }
                            break;
                        },
                    }
                },
                None => {
                    break;
                },
            }
        }
        proof {
            assert(self@.queue =~= queue_after_expiry(q0, now)) by {
                assert forall|id: i64| q0.contains_key(id) && q0[id] > now
                    implies #[trigger] self@.queue.contains_key(id) by {
                    if !self@.queue.contains_key(id) {
                        assert(out@.contains(id));
                        let w = choose|w: int| 0 <= w < out@.len() && out@[w] == id;
                        assert(q0[out@[w]] <= now);
                    }
                }
            }
            assert forall|i: int| 0 <= i < out@.len() implies old(self)@.leases.contains_key(
                #[trigger] out@[i],
            ) && lease_expired(old(self)@.leases[out@[i]], now) by {
                assert(q0.contains_key(out@[i]));
                assert(old(self)@.leases[out@[i]].expiry == Some(q0[out@[i]]));
            }
        }
        out
    }

    /// Every live lease, ordered by ascending remaining time. Ids are
    /// unique; ties on equal expiries fall in no promised order.
    #[verifier::rlimit(60)]
    pub fn leases(&self) -> (r: Vec<Lease>)
        requires
            self.wf(),
            collection_inv(self@),
        ensures
            forall|i: int|
                0 <= i < r@.len() ==> self@.leases.contains_key(#[trigger] r@[i]@.id)
                    && self@.leases[r@[i]@.id] == r@[i]@,
            forall|id: i64| #[trigger] self@.leases.contains_key(id) ==> exists|i: int|
                0 <= i < r@.len() && r@[i]@.id == id,
            forall|i: int, j: int| 0 <= i < j < r@.len() ==> r@[i]@.id != r@[j]@.id,
            forall|i: int, j: int|
                0 <= i < j < r@.len() ==> expiry_key(r@[i]@) <= expiry_key(r@[j]@),
    {
        let ghost lm0 = self.lease_map@;
        let mut out: Vec<Lease> = Vec::new();
        let mut i: usize = 0;
        while i < self.lease_map.len()
            invariant
                self.wf(),
                collection_inv(self@),
                self.lease_map@ == lm0,
                0 <= i <= lm0.len(),
                forall|p: int|
                    0 <= p < out@.len() ==> lm_map(lm0).contains_key(#[trigger] out@[p]@.id)
                        && lm_map(lm0)[out@[p]@.id] == out@[p]@,
                forall|p: int| 0 <= p < out@.len() ==> id_in_prefix(
                    lm0,
                    i as int,
                    #[trigger] out@[p]@.id,
                ),
                forall|j: int| 0 <= j < i ==> exists|p: int|
                    0 <= p < out@.len() && out@[p]@.id == #[trigger] lm0[j].0,
                forall|p: int, q: int| 0 <= p < q < out@.len() ==> out@[p]@.id != out@[q]@.id,
                forall|p: int, q: int|
                    0 <= p < q < out@.len() ==> expiry_key(out@[p]@) <= expiry_key(out@[q]@),
            decreases lm0.len() - i,
        {
            proof {
                lm_value_at(lm0, i as int);
            }
            let l = self.lease_map[i].1.duplicate();
            let key = l.sort_key();
            let ghost out0 = out@;
            let mut p: usize = 0;
            while p < out.len() && out[p].sort_key() <= key
                invariant
                    out@ == out0,
                    0 <= p <= out0.len(),
                    key == expiry_key(l@),
                    forall|q: int| 0 <= q < p ==> expiry_key(#[trigger] out0[q]@) <= key,
                decreases out0.len() - p,
            {
                p = p + 1;
            }
            out.insert(p, l);
            proof {
                let pi = p as int;
                assert forall|a: int, b: int| 0 <= a < b < out@.len() implies expiry_key(out@[a]@)
                    <= expiry_key(out@[b]@) by {
                    if a < pi && b == pi {
                    } else if a == pi && b > pi {
                        assert(out@[b] == out0[b - 1]);
                        if pi < out0.len() {
                            assert(expiry_key(out0[pi]@) > key);
                            assert(expiry_key(out0[pi]@) <= expiry_key(out0[b - 1]@));
                        }
                    } else if a < pi && b > pi {
                        assert(out@[a] == out0[a] && out@[b] == out0[b - 1]);
                    } else if a > pi && b > pi {
                        assert(out@[a] == out0[a - 1] && out@[b] == out0[b - 1]);
                    }
                }
                assert(!lm_map(lm0).contains_key(l@.id) || l@.id == lm0[i as int].0);
                assert(l@.id == lm0[i as int].0);
                assert forall|a: int, b: int| 0 <= a < b < out@.len() implies out@[a]@.id
                    != out@[b]@.id by {
                    if a == pi || b == pi {
                        let other = if a == pi {
                            out@[b]@.id
                        } else {
                            out@[a]@.id
                        };
                        if other == lm0[i as int].0 {
                            let w = choose|w: int| 0 <= w < i && lm0[w].0 == other;
                        }
                    }
                }
                assert forall|j: int| 0 <= j < i + 1 implies exists|q: int|
                    0 <= q < out@.len() && out@[q]@.id == #[trigger] lm0[j].0 by {
                    if j == i {
                        assert(out@[pi]@.id == lm0[i as int].0);
                    } else {
                        let q = choose|q: int| 0 <= q < out0.len() && out0[q]@.id == lm0[j].0;
                        if q < pi {
                            assert(out@[q]@.id == lm0[j].0);
                        } else {
                            assert(out@[q + 1]@.id == lm0[j].0);
                        }
                    }
                }
                assert forall|q: int| 0 <= q < out@.len() implies id_in_prefix(
                    lm0,
                    i + 1,
                    #[trigger] out@[q]@.id,
                ) by {
                    if q == pi {
                        assert(lm0[i as int].0 == out@[q]@.id);
                    } else {
                        let q2 = if q < pi {
                            q
                        } else {
                            q - 1
                        };
                        assert(out@[q] == out0[q2]);
                        let w = choose|w: int| 0 <= w < i && lm0[w].0 == out0[q2]@.id;
                        assert(0 <= w < i + 1 && lm0[w].0 == out@[q]@.id);
                    }
                }
            }
            i = i + 1;
        }
        proof {
            assert forall|id: i64| #[trigger] self@.leases.contains_key(id) implies exists|q: int|
                0 <= q < out@.len() && out@[q]@.id == id by {
                let w = choose|w: int| 0 <= w < lm0.len() && lm0[w].0 == id;
            }
        }
        out
    }

    /// Grant at the instant the clock reads now (see [`Self::grant_at`] for
    /// the exact contract at a given instant).
    pub fn grant(&mut self, lease_id: i64, ttl: i64, is_leader: bool) -> (pb: PbLease)
        requires
            old(self).wf(),
            collection_inv(old(self)@),
            lease_id != 0,
        ensures
            final(self).wf(),
            collection_inv(final(self)@),
            queue_complete(old(self)@) ==> queue_complete(final(self)@),
            pb == (PbLease { id: lease_id, ttl: clamp_ttl(ttl) as i64, remaining_ttl: 0 }),
            exists|now: u64| final(self)@ == spec_grant(old(self)@, lease_id, ttl, is_leader, now),
    {
        let now = crate::clock::clock_now();
        let pb = self.grant_at(lease_id, ttl, is_leader, now);
        proof {
            assert(self@ == spec_grant(old(self)@, lease_id, ttl, is_leader, now));
        }
        pb
    }

    /// Renew at the instant the clock reads now (see [`Self::renew_at`] for
    /// the exact contract at a given instant).
    pub fn renew(&mut self, lease_id: i64) -> (r: Result<i64, ExecuteError>)
        requires
            old(self).wf(),
            collection_inv(old(self)@),
        ensures
            final(self).wf(),
            collection_inv(final(self)@),
            queue_complete(old(self)@) ==> queue_complete(final(self)@),
            match r {
                Ok(ttl) => {
                    &&& old(self)@.leases.contains_key(lease_id)
                    &&& ttl == old(self)@.leases[lease_id].ttl as i64
                    &&& exists|now: u64|
                        !lease_expired(old(self)@.leases[lease_id], now) && final(self)@
                            == spec_renew(old(self)@, lease_id, now)
                },
                Err(e) => {
                    &&& final(self)@ == old(self)@
                    &&& (e == ExecuteError::LeaseNotFound(lease_id) || e
                        == ExecuteError::LeaseExpired(lease_id))
                    &&& (e == ExecuteError::LeaseNotFound(lease_id) <==> !old(
                        self,
                    )@.leases.contains_key(lease_id))
                    &&& (e == ExecuteError::LeaseExpired(lease_id) ==> old(
                        self,
                    )@.leases.contains_key(lease_id) && old(self)@.leases[lease_id].expiry
                        is Some)
                },
            },
    {
        let now = crate::clock::clock_now();
        let r = self.renew_at(lease_id, now);
        proof {
            if r is Ok {
                assert(!lease_expired(old(self)@.leases[lease_id], now) && self@ == spec_renew(
                    old(self)@,
                    lease_id,
                    now,
                ));
            }
        }
        r
    }

    /// Promote at the instant the clock reads now (see [`Self::promote_at`]
    /// for the exact contract at a given instant).
    pub fn promote(&mut self, extend: u64)
        requires
            old(self).wf(),
            collection_inv(old(self)@),
        ensures
            final(self).wf(),
            collection_inv(final(self)@),
            queue_complete(final(self)@),
            exists|now: u64| final(self)@ == spec_promote(old(self)@, extend, now),
    {
        let now = crate::clock::clock_now();
        self.promote_at(extend, now);
        proof {
            assert(self@ == spec_promote(old(self)@, extend, now));
        }
    }

    /// Drain the expired ids at the instant the clock reads now (see
    /// [`Self::find_expired_at`] for the exact contract at a given instant).
    pub fn find_expired_leases(&mut self) -> (r: Vec<i64>)
        requires
            old(self).wf(),
            collection_inv(old(self)@),
        ensures
            final(self).wf(),
            collection_inv(final(self)@),
            exists|now: u64| find_expired_post(old(self)@, final(self)@, r@, now),
    {
        let now = crate::clock::clock_now();
        let r = self.find_expired_at(now);
        proof {
            assert(find_expired_post(old(self)@, self@, r@, now));
        }
        r
    }
}

/// An exact copy of a byte string.
pub fn clone_bytes(b: &Vec<u8>) -> (r: Vec<u8>)
    ensures
        r@ == b@,
{
    let r = b.clone();
    proof {
        assert(r@ =~= b@);
    }
    r
}

// ---------------------------------------------------------------------------
// Invariant preservation.
// ---------------------------------------------------------------------------

/// A grant preserves the collection invariants, and queue completeness where
/// it held.
pub proof fn lemma_grant_preserves(c: CollectionView, id: i64, ttl: i64, is_leader: bool, now: u64)
    requires
        collection_inv(c),
        id != 0,
    ensures
        collection_inv(spec_grant(c, id, ttl, is_leader, now)),
        queue_complete(c) ==> queue_complete(spec_grant(c, id, ttl, is_leader, now)),
{
    let c2 = spec_grant(c, id, ttl, is_leader, now);
    assert forall|k: Seq<u8>| #[trigger] c2.items.contains_key(k) implies c2.leases.contains_key(
        c2.items[k],
    ) && contains_key(c2.leases[c2.items[k]].keys, k) by {
        assert(c.items.contains_key(k) && c.items[k] == c2.items[k]);
        let o = c.items[k];
        if o == id {
            assert(contains_key(c.leases[id].keys, k));
            assert(c.leases[id].keys.to_set().contains(k));
            assert(!c2.items.contains_key(k));
        }
    }
    assert forall|id2: i64, k: Seq<u8>|
        c2.leases.contains_key(id2) && #[trigger] contains_key(c2.leases[id2].keys, k)
            implies c2.items.contains_key(k) && c2.items[k] == id2 by {
        if id2 != id {
            assert(contains_key(c.leases[id2].keys, k));
            assert(c.items.contains_key(k) && c.items[k] == id2);
            if c.leases.contains_key(id) {
                if c.leases[id].keys.to_set().contains(k) {
                    assert(contains_key(c.leases[id].keys, k));
                }
            }
        }
    }
}

/// A revoke of a lease that holds no keys preserves the collection
/// invariants; queue completeness is preserved in any case. (A revoke of a
/// lease that still holds keys leaves its reverse entries dangling on
/// purpose: the store's cascade detaches them first.)
pub proof fn lemma_revoke_preserves(c: CollectionView, id: i64)
    requires
        collection_inv(c),
    ensures
        (!c.leases.contains_key(id) || c.leases[id].keys.len() == 0) ==> collection_inv(
            spec_revoke(c, id),
        ),
        queue_complete(c) ==> queue_complete(spec_revoke(c, id)),
{
    let c2 = spec_revoke(c, id);
    if !c.leases.contains_key(id) || c.leases[id].keys.len() == 0 {
        assert forall|k: Seq<u8>| #[trigger] c2.items.contains_key(k)
            implies c2.leases.contains_key(c2.items[k]) && contains_key(
            c2.leases[c2.items[k]].keys,
            k,
        ) by {
            assert(c.items.contains_key(k));
            if c.items[k] == id {
                assert(contains_key(c.leases[id].keys, k));
                assert(c.leases[id].keys.len() > 0);
            }
        }
    }
}

/// A detach preserves the collection invariants and queue completeness.
pub proof fn lemma_detach_preserves(c: CollectionView, id: i64, k: Seq<u8>)
    requires
        collection_inv(c),
    ensures
        collection_inv(spec_detach(c, id, k)),
        queue_complete(c) ==> queue_complete(spec_detach(c, id, k)),
{
    if c.leases.contains_key(id) {
        let c2 = spec_detach(c, id, k);
        let keys0 = c.leases[id].keys;
        assert(lease_wf(c2.leases[id])) by {
            lemma_remove_key_no_duplicates(keys0, k);
        }
        assert forall|k2: Seq<u8>| #[trigger] c2.items.contains_key(k2)
            implies c2.leases.contains_key(c2.items[k2]) && contains_key(
            c2.leases[c2.items[k2]].keys,
            k2,
        ) by {
            assert(c.items.contains_key(k2) && c.items[k2] == c2.items[k2]);
            let o = c.items[k2];
            if o == id {
                assert(contains_key(keys0, k2));
                if contains_key(keys0, k) {
                    assert(k2 != k);
                } else {
                    assert(k2 != k);
                }
                lemma_remove_key_membership(keys0, k, k2);
            }
        }
        assert forall|id2: i64, k2: Seq<u8>|
            c2.leases.contains_key(id2) && #[trigger] contains_key(c2.leases[id2].keys, k2)
                implies c2.items.contains_key(k2) && c2.items[k2] == id2 by {
            if id2 == id {
                lemma_remove_key_membership(keys0, k, k2);
                assert(contains_key(keys0, k2) && k2 != k);
            } else {
                assert(contains_key(c.leases[id2].keys, k2));
                assert(c.items.contains_key(k2) && c.items[k2] == id2);
                if k2 == k && contains_key(keys0, k) {
                    assert(c.items[k] == id);
                }
            }
        }
    }
}

/// An attach preserves the collection invariants and queue completeness.
pub proof fn lemma_attach_preserves(c: CollectionView, id: i64, k: Seq<u8>)
    requires
        collection_inv(c),
    ensures
        collection_inv(spec_attach(c, id, k)),
        queue_complete(c) ==> queue_complete(spec_attach(c, id, k)),
{
    if c.leases.contains_key(id) {
        let c1 = spec_attach_mid(c, id, k);
        lemma_detach_preserves(c, if c.items.contains_key(k) { c.items[k] } else { 0 }, k);
        assert(collection_inv(c1));
        assert(c1.leases.contains_key(id));
        assert(c1.leases[id] == c.leases[id]) by {
            if c.items.contains_key(k) && c.items[k] != id {
                assert(c.leases.contains_key(c.items[k]));
            }
        }
        assert(!(c1.items.contains_key(k) && c1.items[k] != id)) by {
            if c.items.contains_key(k) && c.items[k] != id {
                let o = c.items[k];
                assert(contains_key(c.leases[o].keys, k));
            }
        }
        let c2 = spec_attach(c, id, k);
        let keys1 = c1.leases[id].keys;
        let keys2 = c2.leases[id].keys;
        assert(lease_wf(c2.leases[id])) by {
            if !contains_key(keys1, k) {
                assert forall|i: int, j: int| 0 <= i < j < keys2.len() implies keys2[i] != keys2[j] by {
                    if j == keys1.len() {
                        if keys2[i] == k {
                            assert(keys1[i] == k);
                            assert(contains_key(keys1, k));
                        }
                    }
                }
            }
        }
        assert forall|k2: Seq<u8>| #[trigger] c2.items.contains_key(k2)
            implies c2.leases.contains_key(c2.items[k2]) && contains_key(
            c2.leases[c2.items[k2]].keys,
            k2,
        ) by {
            lemma_contains_push(keys1, k, k2);
            if k2 == k {
                assert(c2.items[k2] == id);
            } else {
                assert(c1.items.contains_key(k2) && c1.items[k2] == c2.items[k2]);
                let o = c1.items[k2];
                if o == id {
                    assert(contains_key(keys1, k2));
                }
            }
        }
        assert forall|id2: i64, k2: Seq<u8>|
            c2.leases.contains_key(id2) && #[trigger] contains_key(c2.leases[id2].keys, k2)
                implies c2.items.contains_key(k2) && c2.items[k2] == id2 by {
            if id2 == id {
                lemma_contains_push(keys1, k, k2);
                if k2 == k {
                } else {
                    assert(contains_key(keys1, k2));
                    assert(c1.items.contains_key(k2) && c1.items[k2] == id);
                }
            } else {
                assert(contains_key(c1.leases[id2].keys, k2));
                assert(c1.items.contains_key(k2) && c1.items[k2] == id2);
                assert(k2 != k);
            }
        }
    }
}

/// A demotion preserves the collection invariants and establishes queue
/// completeness outright: no lease keeps a finite expiry.
pub proof fn lemma_demote_preserves(c: CollectionView)
    requires
        collection_inv(c),
    ensures
        collection_inv(spec_demote(c)),
        queue_complete(spec_demote(c)),
{
    let c2 = spec_demote(c);
    assert forall|k2: Seq<u8>| #[trigger] c2.items.contains_key(k2)
        implies c2.leases.contains_key(c2.items[k2]) && contains_key(
        c2.leases[c2.items[k2]].keys,
        k2,
    ) by {
        assert(c.items.contains_key(k2));
    }
    assert forall|id2: i64, k2: Seq<u8>|
        c2.leases.contains_key(id2) && #[trigger] contains_key(c2.leases[id2].keys, k2)
            implies c2.items.contains_key(k2) && c2.items[k2] == id2 by {
        assert(contains_key(c.leases[id2].keys, k2));
    }
}

/// A promotion preserves the collection invariants and establishes queue
/// completeness outright: every lease is queued under its new expiry.
pub proof fn lemma_promote_preserves(c: CollectionView, extend: u64, now: u64)
    requires
        collection_inv(c),
    ensures
        collection_inv(spec_promote(c, extend, now)),
        queue_complete(spec_promote(c, extend, now)),
{
    let c2 = spec_promote(c, extend, now);
    assert forall|k2: Seq<u8>| #[trigger] c2.items.contains_key(k2)
        implies c2.leases.contains_key(c2.items[k2]) && contains_key(
        c2.leases[c2.items[k2]].keys,
        k2,
    ) by {
        assert(c.items.contains_key(k2));
    }
    assert forall|id2: i64, k2: Seq<u8>|
        c2.leases.contains_key(id2) && #[trigger] contains_key(c2.leases[id2].keys, k2)
            implies c2.items.contains_key(k2) && c2.items[k2] == id2 by {
        assert(contains_key(c.leases[id2].keys, k2));
    }
}

/// A successful renewal preserves the collection invariants and queue
/// completeness.
pub proof fn lemma_renew_preserves(c: CollectionView, id: i64, now: u64)
    requires
        collection_inv(c),
        c.leases.contains_key(id),
    ensures
        collection_inv(spec_renew(c, id, now)),
        queue_complete(c) ==> queue_complete(spec_renew(c, id, now)),
{
    let c2 = spec_renew(c, id, now);
    assert forall|k2: Seq<u8>| #[trigger] c2.items.contains_key(k2)
        implies c2.leases.contains_key(c2.items[k2]) && contains_key(
        c2.leases[c2.items[k2]].keys,
        k2,
    ) by {
        assert(c.items.contains_key(k2));
    }
    assert forall|id2: i64, k2: Seq<u8>|
        c2.leases.contains_key(id2) && #[trigger] contains_key(c2.leases[id2].keys, k2)
            implies c2.items.contains_key(k2) && c2.items[k2] == id2 by {
        assert(contains_key(c.leases[id2].keys, k2));
    }
}

} // verus!
