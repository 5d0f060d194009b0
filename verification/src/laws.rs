//! Laws that relate several operations of the lease collection. (That each
//! single operation preserves the collection invariants is stated beside the
//! operations themselves, as the `lemma_*_preserves` proofs.)

use vstd::prelude::*;

use crate::lease::lease_expired;
use crate::lease_collection::{
    collection_inv, find_expired_post, queue_complete, spec_demote, spec_grant, spec_promote,
    spec_revoke, CollectionView,
};

verus! {

/// After a demotion followed by a promotion, every lease carries a finite
/// expiry and the queue holds exactly the lease ids.
pub proof fn lemma_demote_then_promote(c: CollectionView, extend: u64, now: u64)
    requires
        collection_inv(c),
    ensures
        forall|id: i64|
            spec_promote(spec_demote(c), extend, now).leases.contains_key(id)
                <==> c.leases.contains_key(id),
        forall|id: i64|
            #[trigger] spec_promote(spec_demote(c), extend, now).leases.contains_key(id)
                ==> spec_promote(spec_demote(c), extend, now).leases[id].expiry is Some,
        forall|id: i64|
            spec_promote(spec_demote(c), extend, now).queue.contains_key(id)
                <==> c.leases.contains_key(id),
{
}

/// Granting a fresh id and then revoking it restores the collection exactly:
/// the lease map, the reverse index and the queue all return to their
/// pre-grant state.
pub proof fn lemma_grant_revoke_restores(
    c: CollectionView,
    id: i64,
    ttl: i64,
    is_leader: bool,
    now: u64,
)
    requires
        collection_inv(c),
        !c.leases.contains_key(id),
        id != 0,
    ensures
        spec_revoke(spec_grant(c, id, ttl, is_leader, now), id) == c,
{
    let c2 = spec_revoke(spec_grant(c, id, ttl, is_leader, now), id);
    assert(c2.leases =~= c.leases);
    assert(c2.items =~= c.items);
    assert(!c.queue.contains_key(id));
    assert(c2.queue =~= c.queue);
    assert(c2 =~= c);
}

/// Draining the expired ids twice at the same instant yields, the first
/// time, exactly the leases already expired, and the second time nothing.
pub proof fn lemma_find_expired_twice(
    c: CollectionView,
    c1: CollectionView,
    r1: Seq<i64>,
    c2: CollectionView,
    r2: Seq<i64>,
    now: u64,
)
    requires
        collection_inv(c),
        queue_complete(c),
        find_expired_post(c, c1, r1, now),
        find_expired_post(c1, c2, r2, now),
    ensures
        forall|id: i64| r1.contains(id) <==> c.leases.contains_key(id) && lease_expired(
            #[trigger] c.leases[id],
            now,
        ),
        r2 == Seq::<i64>::empty(),
{
    assert forall|id: i64|
        r1.contains(id) <==> c.leases.contains_key(id) && lease_expired(
            #[trigger] c.leases[id],
            now,
        ) by {
        if c.leases.contains_key(id) && lease_expired(c.leases[id], now) {
            assert(c.queue.contains_key(id));
            assert(c.queue[id] <= now);
        }
        if r1.contains(id) {
            let w = choose|w: int| 0 <= w < r1.len() && r1[w] == id;
        }
    }
    assert(r2.len() == 0) by {
        if r2.len() > 0 {
            assert(c1.queue.contains_key(r2[0]) && c1.queue[r2[0]] <= now);
        }
    }
    assert(r2 =~= Seq::<i64>::empty());
}

} // verus!
