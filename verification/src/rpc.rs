//! Request, response and event bodies exchanged with the lease store.

use vstd::prelude::*;

verus! {

/// A response header; the revision is zero when a response carries none.
#[derive(Debug, Clone, Copy, PartialEq, Eq, Structural)]
pub struct ResponseHeader {
    pub revision: i64,
}

/// A grant request: client-chosen id and requested time to live in seconds.
#[derive(Debug, Clone, Copy, PartialEq, Eq, Structural)]
pub struct LeaseGrantRequest {
    pub ttl: i64,
    pub id: i64,
}

/// A revoke request.
#[derive(Debug, Clone, Copy, PartialEq, Eq, Structural)]
pub struct LeaseRevokeRequest {
    pub id: i64,
}

/// A grant response: the echoed id and requested time to live.
#[derive(Debug, Clone, Copy, PartialEq, Eq, Structural)]
pub struct LeaseGrantResponse {
    pub header: Option<ResponseHeader>,
    pub id: i64,
    pub ttl: i64,
}

/// A revoke response.
#[derive(Debug, Clone, Copy, PartialEq, Eq, Structural)]
pub struct LeaseRevokeResponse {
    pub header: Option<ResponseHeader>,
}

/// The requests this store serves.
#[derive(Debug, Clone, Copy, PartialEq, Eq)]
pub enum RequestWrapper {
    LeaseGrantRequest(LeaseGrantRequest),
    LeaseRevokeRequest(LeaseRevokeRequest),
}

/// The responses this store produces.
#[derive(Debug, Clone, Copy, PartialEq, Eq)]
pub enum ResponseWrapper {
    LeaseGrantResponse(LeaseGrantResponse),
    LeaseRevokeResponse(LeaseRevokeResponse),
}

/// Mathematical model of a stored key-value record.
#[verifier::ext_equal]
pub struct KeyValueData {
    pub key: Seq<u8>,
    pub value: Seq<u8>,
    pub create_revision: i64,
    pub mod_revision: i64,
    pub version: i64,
    pub lease: i64,
}

/// A stored key-value record.
#[derive(Debug)]
pub struct KeyValue {
    pub key: Vec<u8>,
    pub value: Vec<u8>,
    pub create_revision: i64,
    pub mod_revision: i64,
    pub version: i64,
    pub lease: i64,
}

impl View for KeyValue {
    type V = KeyValueData;

    open spec fn view(&self) -> KeyValueData {
        KeyValueData {
            key: self.key@,
            value: self.value@,
            create_revision: self.create_revision,
            mod_revision: self.mod_revision,
            version: self.version,
            lease: self.lease,
        }
    }
}

impl KeyValue {
    /// An exact copy of the record.
    pub fn duplicate(&self) -> (r: KeyValue)
        ensures
            r@ == self@,
    {
        let r = KeyValue {
            key: crate::lease_collection::clone_bytes(&self.key),
            value: crate::lease_collection::clone_bytes(&self.value),
            create_revision: self.create_revision,
            mod_revision: self.mod_revision,
            version: self.version,
            lease: self.lease,
        };
        proof {
            assert(r@ =~= self@);
        }
        r
    }
}

/// What happened to a key.
#[derive(Debug, Clone, Copy, PartialEq, Eq, Structural)]
pub enum EventType {
    Put,
    Delete,
}

/// Mathematical model of a watch event.
#[verifier::ext_equal]
pub struct EventData {
    pub event_type: EventType,
    pub kv: Option<KeyValueData>,
    pub prev_kv: Option<KeyValueData>,
}

/// A watch event: the new state of a key and, for deletes, its prior state.
#[derive(Debug)]
pub struct Event {
    pub event_type: EventType,
    pub kv: Option<KeyValue>,
    pub prev_kv: Option<KeyValue>,
}

impl View for Event {
    type V = EventData;

    open spec fn view(&self) -> EventData {
        EventData {
            event_type: self.event_type,
            kv: match self.kv {
                Some(ref kv) => Some(kv@),
                None => None,
            },
            prev_kv: match self.prev_kv {
                Some(ref kv) => Some(kv@),
                None => None,
            },
        }
    }
}

} // verus!
