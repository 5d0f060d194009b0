//! Tests of the lease collection, the expiry queue, the lease record and
//! the wire codec, at explicit instants.

use lease_store::codec::{decode_pb, encode_pb};
use lease_store::error::ExecuteError;
use lease_store::lease::Lease;
use lease_store::lease_collection::LeaseCollection;
use lease_store::lease_queue::LeaseQueue;
use lease_store::pb::PbLease;

#[test]
fn grant_clamps_zero_ttl_to_minimum() {
    let mut c = LeaseCollection::new();
    let pb = c.grant_at(1, 0, true, 100);
    assert_eq!(pb.ttl, 1);
    let l = c.look_up(1).unwrap();
    assert_eq!(l.ttl(), 1);
}

#[test]
fn leader_grant_sets_expiry_follower_grant_does_not() {
    let mut c = LeaseCollection::new();
    c.grant_at(1, 10, true, 100);
    let on_leader = c.look_up(1).unwrap();
    assert_eq!(on_leader.expired_at(109), false);
    assert_eq!(on_leader.expired_at(110), true);
    assert_eq!(on_leader.remaining_at(100), 10);

    let mut f = LeaseCollection::new();
    f.grant_at(1, 10, false, 100);
    let on_follower = f.look_up(1).unwrap();
    assert_eq!(on_follower.expired_at(u64::MAX), false);
    assert_eq!(on_follower.remaining_at(100), u64::MAX);
}

#[test]
fn followers_have_no_timers_until_promotion() {
    // A follower grants without a timer; promotion with no grace starts
    // one; a second later the lease has expired.
    let mut c = LeaseCollection::new();
    c.grant_at(1, 1, false, 100);
    assert!(c.find_expired_at(101).is_empty());
    c.promote_at(0, 101);
    assert!(c.find_expired_at(101).is_empty());
    assert_eq!(c.find_expired_at(102), vec![1]);
}

#[test]
fn find_expired_drains_once() {
    let mut c = LeaseCollection::new();
    c.grant_at(1, 1, true, 100);
    c.grant_at(2, 5, true, 100);
    c.grant_at(3, 1, true, 103);
    // At 102, lease 1 (expiry 101) has expired; 2 expires at 105, 3 at 104.
    let first = c.find_expired_at(102);
    assert_eq!(first, vec![1]);
    let second = c.find_expired_at(102);
    assert!(second.is_empty());
    // Later, the remaining two expire in expiry order.
    let third = c.find_expired_at(105);
    assert_eq!(third, vec![3, 2]);
}

#[test]
fn demote_then_promote_requeues_every_lease() {
    let mut c = LeaseCollection::new();
    c.grant_at(1, 10, true, 100);
    c.grant_at(2, 20, true, 100);
    c.demote();
    assert!(c.find_expired_at(u64::MAX).is_empty());
    c.promote_at(2, 100);
    // Every lease now carries a finite expiry: ttl plus the grace of two.
    let drained = c.find_expired_at(u64::MAX);
    assert_eq!(drained.len(), 2);
    assert_eq!(drained, vec![1, 2]);
    let l1 = c.look_up(1).unwrap();
    assert_eq!(l1.remaining_at(100), 12);
}

#[test]
fn grant_then_revoke_restores_the_collection() {
    let mut c = LeaseCollection::new();
    c.grant_at(1, 10, true, 100);
    c.attach(1, b"key".to_vec()).unwrap();
    c.detach(1, b"key").unwrap();
    let removed = c.revoke(1);
    assert_eq!(removed.unwrap().id(), 1);
    assert!(!c.contains_lease(1));
    assert!(c.look_up(1).is_none());
    assert_eq!(c.get_lease(b"key"), 0);
    assert!(c.find_expired_at(u64::MAX).is_empty());
    assert!(c.leases().is_empty());
}

#[test]
fn attach_detach_maintain_the_reverse_index() {
    let mut c = LeaseCollection::new();
    c.grant_at(1, 10, true, 100);
    c.grant_at(2, 10, true, 100);
    assert_eq!(
        c.attach(9, b"key".to_vec()),
        Err(ExecuteError::LeaseNotFound(9))
    );
    c.attach(1, b"key".to_vec()).unwrap();
    assert_eq!(c.get_lease(b"key"), 1);
    // Attaching the key to another lease moves it.
    c.attach(2, b"key".to_vec()).unwrap();
    assert_eq!(c.get_lease(b"key"), 2);
    assert!(c.look_up(1).unwrap().keys().is_empty());
    c.detach(2, b"key").unwrap();
    assert_eq!(c.get_lease(b"key"), 0);
    assert!(c.look_up(2).unwrap().keys().is_empty());
}

#[test]
fn renew_pushes_the_expiry_out() {
    let mut c = LeaseCollection::new();
    c.grant_at(1, 10, true, 100);
    assert_eq!(c.renew_at(1, 105), Ok(10));
    let l = c.look_up(1).unwrap();
    assert_eq!(l.remaining_at(105), 10);
    assert_eq!(c.renew_at(2, 105), Err(ExecuteError::LeaseNotFound(2)));
    assert_eq!(c.renew_at(1, 200), Err(ExecuteError::LeaseExpired(1)));
}

#[test]
fn a_lease_without_expiry_always_renews() {
    // A follower-granted lease has no expiry, so no instant can have
    // passed it: renewal is owed at any time.
    let mut c = LeaseCollection::new();
    c.grant_at(1, 10, false, 100);
    assert_eq!(c.renew_at(1, u64::MAX), Ok(10));
}

#[test]
fn leases_sort_by_remaining_time() {
    let mut c = LeaseCollection::new();
    c.grant_at(1, 30, true, 100);
    c.grant_at(2, 10, true, 100);
    c.grant_at(3, 20, true, 100);
    let all = c.leases();
    assert_eq!(all.len(), 3);
    assert_eq!(all[0].id(), 2);
    assert_eq!(all[1].id(), 3);
    assert_eq!(all[2].id(), 1);
}

#[test]
fn queue_operations() {
    let mut q = LeaseQueue::new();
    assert_eq!(q.peek(), None);
    assert_eq!(q.pop(), None);
    assert_eq!(q.insert(1, 50), None);
    assert_eq!(q.insert(2, 40), None);
    assert_eq!(q.insert(1, 30), Some(50));
    assert_eq!(q.len(), 2);
    assert_eq!(q.peek(), Some(30));
    assert_eq!(q.update(3, 10), None); // absent: no-op
    assert_eq!(q.peek(), Some(30));
    assert_eq!(q.update(2, 20), Some(40));
    // After the update the earliest entry is id 2 at 20, then id 1 at 30.
    assert_eq!(q.pop(), Some(2));
    assert_eq!(q.pop(), Some(1));
    assert_eq!(q.pop(), None);
    q.insert(5, 9);
    assert_eq!(q.remove(5), Some(9));
    q.clear();
    assert_eq!(q.len(), 0);
    assert_eq!(q.remove(1), None);
}

#[test]
fn lease_key_set_is_ordered_and_duplicate_free() {
    let mut l = Lease::new(1, 10);
    l.insert_key(b"a".to_vec());
    l.insert_key(b"b".to_vec());
    l.insert_key(b"a".to_vec());
    assert_eq!(l.keys(), vec![b"a".to_vec(), b"b".to_vec()]);
    assert_eq!(l.key_count(), 2);
    assert!(l.has_key(b"a"));
    l.remove_key(b"a");
    assert_eq!(l.keys(), vec![b"b".to_vec()]);
    assert!(!l.has_key(b"a"));
    l.remove_key(b"missing");
    assert_eq!(l.key_count(), 1);
}

#[test]
fn lease_record_round_trips_through_the_wire_format() {
    let cases = vec![
        PbLease { id: 1, ttl: 10, remaining_ttl: 0 },
        PbLease { id: -7, ttl: 9_000_000_000, remaining_ttl: 3 },
        PbLease { id: i64::MAX, ttl: 1, remaining_ttl: i64::MAX },
        PbLease { id: i64::MIN, ttl: 0, remaining_ttl: -1 },
    ];
    for pb in cases {
        let bytes = encode_pb(&pb);
        assert_eq!(decode_pb(bytes.as_slice()), Some(pb));
    }
}

#[test]
fn decoder_rejects_malformed_records() {
    assert_eq!(decode_pb(&[]), None);
    assert_eq!(decode_pb(&[0x08, 0x01]), None); // no length prefix
    let good = encode_pb(&PbLease { id: 1, ttl: 10, remaining_ttl: 0 });
    assert_eq!(decode_pb(&good[..good.len() - 1]), None); // truncated
    let mut long = good.clone();
    long.push(0);
    assert_eq!(decode_pb(long.as_slice()), None); // trailing byte
}

#[test]
fn expired_queue_ignores_ids_revoked_before_the_drain() {
    let mut c = LeaseCollection::new();
    c.grant_at(1, 1, true, 100);
    c.grant_at(2, 1, true, 100);
    c.revoke(1);
    // Only the surviving lease comes out of the drain.
    assert_eq!(c.find_expired_at(200), vec![2]);
}
