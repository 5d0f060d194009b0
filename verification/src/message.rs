//! The messages other subsystems send the lease store through its
//! dispatcher, and the one-step decision function the dispatcher task
//! applies to each. The task itself — the channel, the loop, the reply
//! senders — lives outside the library; it owns a store and calls
//! [`handle_lease_message`] once per received message.

use vstd::prelude::*;

use crate::error::ExecuteError;
use crate::lease::Lease;
use crate::lease_collection::{queue_complete, spec_attach, spec_detach};
use crate::store::LeaseStore;

verus! {

/// A cross-store request: attach or detach a key, look a lease up, or find
/// the lease owning a key.
#[derive(Debug)]
pub enum LeaseMessage {
    Attach(i64, Vec<u8>),
    Detach(i64, Vec<u8>),
    GetLease(Vec<u8>),
    LookUp(i64),
}

/// The answer to one [`LeaseMessage`].
#[derive(Debug)]
pub enum LeaseReply {
    Attach(Result<(), ExecuteError>),
    Detach(Result<(), ExecuteError>),
    GetLease(i64),
    LookUp(Option<Lease>),
}

/// Serve one dispatcher message: the mutation or query it names, applied to
/// the store, with the reply the sender is owed.
pub fn handle_lease_message(store: &mut LeaseStore, msg: LeaseMessage) -> (r: LeaseReply)
    requires
        old(store).wf(),
    ensures
        final(store).wf(),
        final(store)@.leader == old(store)@.leader,
        final(store)@.revision == old(store)@.revision,
        queue_complete(old(store)@.collection) ==> queue_complete(final(store)@.collection),
        match msg {
            LeaseMessage::Attach(id, key) => {
                &&& final(store)@.collection == spec_attach(old(store)@.collection, id, key@)
                &&& r == LeaseReply::Attach(
                    if old(store)@.collection.leases.contains_key(id) {
                        Ok::<(), ExecuteError>(())
                    } else {
                        Err::<(), ExecuteError>(ExecuteError::LeaseNotFound(id))
                    },
                )
            },
            LeaseMessage::Detach(id, key) => {
                &&& final(store)@.collection == spec_detach(old(store)@.collection, id, key@)
                &&& r == LeaseReply::Detach(
                    if old(store)@.collection.leases.contains_key(id) {
                        Ok::<(), ExecuteError>(())
                    } else {
                        Err::<(), ExecuteError>(ExecuteError::LeaseNotFound(id))
                    },
                )
            },
            LeaseMessage::GetLease(key) => {
                &&& final(store)@ == old(store)@
                &&& r == LeaseReply::GetLease(
                    if old(store)@.collection.items.contains_key(key@) {
                        old(store)@.collection.items[key@]
                    } else {
                        0
                    },
                )
            },
            LeaseMessage::LookUp(id) => {
                &&& final(store)@ == old(store)@
                &&& (r matches LeaseReply::LookUp(l) ==> match l {
                    Some(lease) => old(store)@.collection.leases.contains_key(id) && lease@ == old(
                        store,
                    )@.collection.leases[id],
                    None => !old(store)@.collection.leases.contains_key(id),
                })
                &&& (r matches LeaseReply::LookUp(_))
            },
        },
{
    match msg {
        LeaseMessage::Attach(id, key) => LeaseReply::Attach(store.attach(id, key)),
        LeaseMessage::Detach(id, key) => {
            let r = store.detach(id, key.as_slice());
            LeaseReply::Detach(r)
        },
        LeaseMessage::GetLease(key) => LeaseReply::GetLease(store.get_lease(key.as_slice())),
        LeaseMessage::LookUp(id) => LeaseReply::LookUp(store.look_up(id)),
    }
}

} // verus!
