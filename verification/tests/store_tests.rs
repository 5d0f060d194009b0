//! End-to-end tests of the lease store: execute, after-sync, flush,
//! recovery and the revoke cascade.

use lease_store::db::{MemoryDb, WriteOp};
use lease_store::error::{DbFault, ExecuteError};
use lease_store::index::{Index, Revision};
use lease_store::rpc::{
    EventType, KeyValue, LeaseGrantRequest, LeaseRevokeRequest, RequestWrapper,
};
use lease_store::message::{handle_lease_message, LeaseMessage, LeaseReply};
use lease_store::store::LeaseStore;

fn exe_and_sync_req(
    store: &mut LeaseStore,
    db: &mut MemoryDb,
    index: &mut Index,
    proposal: u64,
    req: &RequestWrapper,
) -> Result<(), ExecuteError> {
    store.execute(req)?;
    store.after_sync(db, index, proposal, req)?;
    db.flush(proposal)?;
    Ok(())
}

#[test]
fn test_lease_storage() {
    let mut db = MemoryDb::new();
    let mut index = Index::new();
    let mut lease_store = LeaseStore::new(true);

    let req1 = RequestWrapper::LeaseGrantRequest(LeaseGrantRequest { ttl: 10, id: 1 });
    exe_and_sync_req(&mut lease_store, &mut db, &mut index, 1, &req1).unwrap();

    let lo = lease_store.look_up(1).unwrap();
    assert_eq!(lo.id(), 1);
    assert_eq!(lo.ttl(), 10);
    assert_eq!(lease_store.leases().len(), 1);

    let attach_non_existing_lease = lease_store.attach(0, b"key".to_vec());
    assert!(attach_non_existing_lease.is_err());
    let attach_existing_lease = lease_store.attach(1, b"key".to_vec());
    assert!(attach_existing_lease.is_ok());
    lease_store.detach(1, b"key").unwrap();

    let req2 = RequestWrapper::LeaseRevokeRequest(LeaseRevokeRequest { id: 1 });
    exe_and_sync_req(&mut lease_store, &mut db, &mut index, 2, &req2).unwrap();
    assert!(lease_store.look_up(1).is_none());
    assert!(lease_store.leases().is_empty());
}

#[test]
fn test_recover() {
    let mut db = MemoryDb::new();
    let mut index = Index::new();
    let mut store = LeaseStore::new(true);

    let req1 = RequestWrapper::LeaseGrantRequest(LeaseGrantRequest { ttl: 10, id: 1 });
    exe_and_sync_req(&mut store, &mut db, &mut index, 1, &req1).unwrap();
    store.attach(1, b"key".to_vec()).unwrap();

    let mut new_store = LeaseStore::new(true);
    assert!(new_store.look_up(1).is_none());
    new_store.recover(&db).unwrap();

    let lease1 = store.look_up(1).unwrap();
    let lease2 = new_store.look_up(1).unwrap();

    assert_eq!(lease1.id(), lease2.id());
    assert_eq!(lease1.ttl(), lease2.ttl());
    assert!(!lease1.keys().is_empty());
    assert!(lease2.keys().is_empty()); // keys come back with the key-value recovery
}

#[test]
fn execute_rejects_bad_grants() {
    let store = LeaseStore::new(true);
    let zero_id = RequestWrapper::LeaseGrantRequest(LeaseGrantRequest { ttl: 10, id: 0 });
    assert_eq!(store.execute(&zero_id), Err(ExecuteError::LeaseNotFound(0)));
    let huge_ttl = RequestWrapper::LeaseGrantRequest(LeaseGrantRequest {
        ttl: 9_000_000_001,
        id: 1,
    });
    assert_eq!(
        store.execute(&huge_ttl),
        Err(ExecuteError::LeaseTtlTooLarge(9_000_000_001))
    );
}

#[test]
fn execute_rejects_duplicate_grant_and_unknown_revoke() {
    let mut db = MemoryDb::new();
    let mut index = Index::new();
    let mut store = LeaseStore::new(true);
    let revoke_unknown = RequestWrapper::LeaseRevokeRequest(LeaseRevokeRequest { id: 7 });
    assert_eq!(
        store.execute(&revoke_unknown),
        Err(ExecuteError::LeaseNotFound(7))
    );
    let grant = RequestWrapper::LeaseGrantRequest(LeaseGrantRequest { ttl: 5, id: 7 });
    exe_and_sync_req(&mut store, &mut db, &mut index, 1, &grant).unwrap();
    assert_eq!(
        store.execute(&grant),
        Err(ExecuteError::LeaseAlreadyExists(7))
    );
}

#[test]
fn grant_response_echoes_requested_ttl() {
    let store = LeaseStore::new(true);
    // A zero time to live is clamped to one second in the stored record,
    // but the response advertises the requested value.
    let req = RequestWrapper::LeaseGrantRequest(LeaseGrantRequest { ttl: 0, id: 3 });
    match store.execute(&req).unwrap() {
        lease_store::rpc::ResponseWrapper::LeaseGrantResponse(resp) => {
            assert_eq!(resp.id, 3);
            assert_eq!(resp.ttl, 0);
        }
        _ => panic!("grant request answered with a revoke response"),
    }
}

#[test]
fn revoke_cascade_emits_ordered_delete_events() {
    let mut db = MemoryDb::new();
    let mut index = Index::new();
    let mut store = LeaseStore::new(true);

    let grant = RequestWrapper::LeaseGrantRequest(LeaseGrantRequest { ttl: 10, id: 1 });
    exe_and_sync_req(&mut store, &mut db, &mut index, 1, &grant).unwrap();
    store.attach(1, b"a".to_vec()).unwrap();
    store.attach(1, b"b".to_vec()).unwrap();

    // Seed the index and the key-value table with the prior records, as
    // the key-value store would have on a put.
    let rev_a = Revision::new(7, 0);
    let rev_b = Revision::new(8, 0);
    index.insert(b"a".to_vec(), rev_a);
    index.insert(b"b".to_vec(), rev_b);
    db.buffer_op(
        90,
        WriteOp::PutKeyValue(
            rev_a,
            KeyValue {
                key: b"a".to_vec(),
                value: b"va".to_vec(),
                create_revision: 7,
                mod_revision: 7,
                version: 1,
                lease: 1,
            },
        ),
    );
    db.buffer_op(
        90,
        WriteOp::PutKeyValue(
            rev_b,
            KeyValue {
                key: b"b".to_vec(),
                value: b"vb".to_vec(),
                create_revision: 8,
                mod_revision: 8,
                version: 1,
                lease: 1,
            },
        ),
    );
    db.flush(90).unwrap();

    let r0 = store.gen_header().revision;
    let revoke = RequestWrapper::LeaseRevokeRequest(LeaseRevokeRequest { id: 1 });
    store.execute(&revoke).unwrap();
    let (after_rev, updates) = store.after_sync(&mut db, &mut index, 2, &revoke).unwrap();
    let (rev, events) = updates.expect("a keyed revoke must publish events");

    assert_eq!(rev, r0 + 1);
    assert_eq!(after_rev, r0 + 1);
    assert_eq!(events.len(), 2);
    // Events come in attachment order, both deletes at the same revision,
    // each with the prior record.
    assert_eq!(events[0].event_type, EventType::Delete);
    assert_eq!(events[1].event_type, EventType::Delete);
    let kv0 = events[0].kv.as_ref().unwrap();
    let kv1 = events[1].kv.as_ref().unwrap();
    assert_eq!(kv0.key, b"a".to_vec());
    assert_eq!(kv1.key, b"b".to_vec());
    assert_eq!(kv0.mod_revision, rev);
    assert_eq!(kv1.mod_revision, rev);
    assert!(kv0.value.is_empty());
    let prev0 = events[0].prev_kv.as_ref().unwrap();
    let prev1 = events[1].prev_kv.as_ref().unwrap();
    assert_eq!(prev0.value, b"va".to_vec());
    assert_eq!(prev1.value, b"vb".to_vec());

    assert!(store.look_up(1).is_none());
    assert_eq!(store.get_lease(b"a"), 0);
    assert_eq!(store.get_lease(b"b"), 0);
}

#[test]
fn revoke_cascade_reports_missing_index_and_kv_entries() {
    let mut db = MemoryDb::new();
    let mut index = Index::new();
    let mut store = LeaseStore::new(true);
    let grant = RequestWrapper::LeaseGrantRequest(LeaseGrantRequest { ttl: 10, id: 1 });
    exe_and_sync_req(&mut store, &mut db, &mut index, 1, &grant).unwrap();
    store.attach(1, b"k".to_vec()).unwrap();

    // No index entry for the attached key: the apply must fail fatally.
    let revoke = RequestWrapper::LeaseRevokeRequest(LeaseRevokeRequest { id: 1 });
    let r = store.after_sync(&mut db, &mut index, 2, &revoke);
    assert_eq!(r.unwrap_err(), ExecuteError::DbError(DbFault::MissingIndexEntry));

    // An index entry whose revision the key-value table does not know
    // fails likewise.
    let mut db2 = MemoryDb::new();
    let mut index2 = Index::new();
    let mut store2 = LeaseStore::new(true);
    exe_and_sync_req(&mut store2, &mut db2, &mut index2, 1, &grant).unwrap();
    store2.attach(1, b"k".to_vec()).unwrap();
    index2.insert(b"k".to_vec(), Revision::new(5, 0));
    let r2 = store2.after_sync(&mut db2, &mut index2, 2, &revoke);
    assert_eq!(r2.unwrap_err(), ExecuteError::DbError(DbFault::MissingKeyValue));
}

#[test]
fn keep_alive_requires_leadership() {
    let mut follower = LeaseStore::new(false);
    assert_eq!(follower.keep_alive(1), Err(ExecuteError::LeaseNotLeader));

    let mut db = MemoryDb::new();
    let mut index = Index::new();
    let mut leader = LeaseStore::new(true);
    let grant = RequestWrapper::LeaseGrantRequest(LeaseGrantRequest { ttl: 10, id: 4 });
    exe_and_sync_req(&mut leader, &mut db, &mut index, 1, &grant).unwrap();
    assert_eq!(leader.keep_alive(4), Ok(10));
    assert_eq!(leader.keep_alive(5), Err(ExecuteError::LeaseNotFound(5)));
}

#[test]
fn dispatcher_messages_map_to_collection_operations() {
    let mut db = MemoryDb::new();
    let mut index = Index::new();
    let mut store = LeaseStore::new(true);
    let grant = RequestWrapper::LeaseGrantRequest(LeaseGrantRequest { ttl: 10, id: 1 });
    exe_and_sync_req(&mut store, &mut db, &mut index, 1, &grant).unwrap();

    match handle_lease_message(&mut store, LeaseMessage::Attach(1, b"key".to_vec())) {
        LeaseReply::Attach(r) => assert!(r.is_ok()),
        _ => panic!("attach answered with the wrong reply kind"),
    }
    match handle_lease_message(&mut store, LeaseMessage::GetLease(b"key".to_vec())) {
        LeaseReply::GetLease(id) => assert_eq!(id, 1),
        _ => panic!("get-lease answered with the wrong reply kind"),
    }
    match handle_lease_message(&mut store, LeaseMessage::Detach(1, b"key".to_vec())) {
        LeaseReply::Detach(r) => assert!(r.is_ok()),
        _ => panic!("detach answered with the wrong reply kind"),
    }
    match handle_lease_message(&mut store, LeaseMessage::GetLease(b"key".to_vec())) {
        LeaseReply::GetLease(id) => assert_eq!(id, 0),
        _ => panic!("get-lease answered with the wrong reply kind"),
    }
    match handle_lease_message(&mut store, LeaseMessage::LookUp(1)) {
        LeaseReply::LookUp(l) => assert_eq!(l.unwrap().id(), 1),
        _ => panic!("look-up answered with the wrong reply kind"),
    }
}
