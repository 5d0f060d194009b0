//! The lease store backend: validation before consensus (`execute`) and the
//! deterministic apply after it (`after_sync`), including the revoke
//! cascade that deletes every attached key under one freshly allocated
//! revision.

use vstd::prelude::*;

use crate::bytes::contains_key;
use crate::codec::{decode_pb, spec_decode_pb};
use crate::db::{DbView, MemoryDb, WriteOp, WriteOpData};
use crate::error::{DbFault, ExecuteError};
use crate::index::{Index, Revision};
use crate::lease::{lemma_remove_first, LeaseData};
use crate::lease_collection::{
    clamp_ttl, clone_bytes, collection_inv, find_expired_post, queue_complete, spec_detach,
    spec_grant, spec_renew, spec_revoke, CollectionView, LeaseCollection,
};
use crate::pb::PbLease;
use crate::rpc::{
    Event, EventType, KeyValue, KeyValueData, LeaseGrantRequest, LeaseGrantResponse,
    LeaseRevokeRequest, LeaseRevokeResponse, RequestWrapper, ResponseHeader, ResponseWrapper,
};
use crate::lease::Lease;
use crate::MAX_LEASE_TTL;

verus! {

/// `m` with every key of `ks` taken out.
pub open spec fn map_minus_keys<V>(m: Map<Seq<u8>, V>, ks: Seq<Seq<u8>>) -> Map<Seq<u8>, V> {
    Map::new(|k: Seq<u8>| m.contains_key(k) && !contains_key(ks, k), |k: Seq<u8>| m[k])
}

/// The collection after a full revoke cascade: the record, its queue entry
/// and the reverse entries of all its keys are gone.
pub open spec fn revoke_cascade_collection(c: CollectionView, id: i64) -> CollectionView {
    CollectionView {
        leases: c.leases.remove(id),
        items: map_minus_keys(c.items, c.leases[id].keys),
        queue: c.queue.remove(id),
    }
}

/// The tombstone written and published for a deleted key: the prior
/// record's key, an empty value, and the delete revision.
pub open spec fn tombstone_of(prev: KeyValueData, revision: i64) -> KeyValueData {
    KeyValueData {
        key: prev.key,
        value: Seq::empty(),
        create_revision: 0,
        mod_revision: revision,
        version: 0,
        lease: 0,
    }
}

/// True iff every stored lease record decodes and carries the id it is
/// stored under.
pub open spec fn recs_ids_match(s: Seq<(i64, Vec<u8>)>) -> bool {
    forall|p: int|
        0 <= p < s.len() ==> spec_decode_pb((#[trigger] s[p]).1@) is Some && spec_decode_pb(
            s[p].1@,
        ).unwrap().id == s[p].0
}

/// The record a recovery pass rebuilds from a persisted `PbLease`: the
/// clamped time to live, no expiry, no keys.
pub open spec fn recovered_lease(pb: PbLease) -> LeaseData {
    LeaseData {
        id: pb.id,
        ttl: clamp_ttl(pb.ttl),
        remaining_ttl: 0,
        expiry: None,
        keys: Seq::empty(),
    }
}

/// True iff `x` is live in `leases` holding the recovered form of some
/// stored record that decodes to the id `x` (where several stored records
/// decode to the same id, the one granted last).
pub open spec fn recovered_from_table(
    tbl: Map<i64, Seq<u8>>,
    leases: Map<i64, LeaseData>,
    x: i64,
) -> bool {
    exists|id2: i64| #[trigger] tbl.contains_key(id2) && spec_decode_pb(tbl[id2]).unwrap().id == x
        && leases[x] == recovered_lease(spec_decode_pb(tbl[id2]).unwrap())
}

/// True iff the lease decoded from record `p` is live in `leases`, holding
/// the recovered form of one of the first `n` records that decodes to the
/// same id.
pub open spec fn rec_recovered(
    recs: Seq<(i64, Vec<u8>)>,
    n: int,
    leases: Map<i64, LeaseData>,
    p: int,
) -> bool {
    exists|q: int|
        {
            &&& 0 <= q < n
            &&& spec_decode_pb(#[trigger] recs[q].1@).unwrap().id == spec_decode_pb(
                recs[p].1@,
            ).unwrap().id
            &&& leases.contains_key(spec_decode_pb(recs[p].1@).unwrap().id)
            &&& leases[spec_decode_pb(recs[p].1@).unwrap().id] == recovered_lease(
                spec_decode_pb(recs[q].1@).unwrap(),
            )
        }
}

/// Everything applying a committed grant promises, from the states before
/// (`s0`, `db0`) to the states after (`s1`, `db1`): on success the record
/// is stored at some clock instant and its persisted form is buffered once
/// under the proposal; the reserved id zero is refused with not-found and
/// changes nothing. The revision never advances.
pub open spec fn sync_grant_post(
    s0: StoreView,
    s1: StoreView,
    db0: DbView,
    db1: DbView,
    proposal: u64,
    req: LeaseGrantRequest,
    r: Result<(), ExecuteError>,
) -> bool {
    &&& s1.leader == s0.leader
    &&& s1.revision == s0.revision
    &&& match r {
        Ok(()) => {
            &&& req.id != 0
            &&& exists|now: u64|
                s1.collection == spec_grant(s0.collection, req.id, req.ttl, s0.leader, now)
            &&& db1 == (DbView {
                buffer: db0.buffer.push(
                    (
                        proposal,
                        WriteOpData::PutLease(
                            PbLease {
                                id: req.id,
                                ttl: clamp_ttl(req.ttl) as i64,
                                remaining_ttl: 0,
                            },
                        ),
                    ),
                ),
                ..db0
            })
        },
        Err(e) => {
            &&& req.id == 0
            &&& e == ExecuteError::LeaseNotFound(0)
            &&& s1 == s0
            &&& db1 == db0
        },
    }
}

/// Everything applying a committed revoke promises, from the states before
/// (`s0`, `db0`, `ix0`) to the states after (`s1`, `db1`, `ix1`). The
/// record's deletion is buffered first in every outcome. On success with
/// keys, one fresh revision is allocated, every attached key leaves the
/// index under ascending sub-revisions, a tombstone per key is buffered,
/// the collection loses the record with all its reverse entries, and the
/// events carry each prior record in attachment order. A failure names the
/// key the cascade tore on and the exact prefix of the index that was
/// consumed; the collection and the tables are never touched on failure.
pub open spec fn sync_revoke_post(
    s0: StoreView,
    s1: StoreView,
    db0: DbView,
    db1: DbView,
    ix0: Map<Seq<u8>, Revision>,
    ix1: Map<Seq<u8>, Revision>,
    proposal: u64,
    id: i64,
    r: Result<Option<(i64, Vec<Event>)>, ExecuteError>,
) -> bool {
    let c = s0.collection;
    let keys = c.leases[id].keys;
    &&& s1.leader == s0.leader
    &&& match r {
        Ok(out) => {
            &&& c.leases.contains_key(id)
            &&& match out {
                None => {
                    &&& keys.len() == 0
                    &&& s1 == (StoreView { collection: spec_revoke(c, id), ..s0 })
                    &&& db1 == (DbView {
                        buffer: db0.buffer.push((proposal, WriteOpData::DeleteLease(id))),
                        ..db0
                    })
                    &&& ix1 == ix0
                },
                Some((rev, events)) => {
                    &&& keys.len() > 0
                    &&& rev == s0.revision + 1
                    &&& s1.revision == rev
                    &&& s1.collection == revoke_cascade_collection(c, id)
                    &&& ix1 == map_minus_keys(ix0, keys)
                    &&& events@.len() == keys.len()
                    &&& forall|i: int|
                        0 <= i < keys.len() ==> ix0.contains_key(#[trigger] keys[i])
                            && db0.tables.kv_tbl.contains_key(ix0[keys[i]])
                    &&& forall|i: int|
                        0 <= i < keys.len() ==> (#[trigger] events@[i])@ == (crate::rpc::EventData {
                            event_type: EventType::Delete,
                            kv: Some(tombstone_of(db0.tables.kv_tbl[ix0[keys[i]]], rev)),
                            prev_kv: Some(db0.tables.kv_tbl[ix0[keys[i]]]),
                        })
                    &&& db1.tables == db0.tables
                    &&& db1.buffer.len() == db0.buffer.len() + 1 + keys.len()
                    &&& forall|k: int|
                        0 <= k < db0.buffer.len() ==> db1.buffer[k] == #[trigger] db0.buffer[k]
                    &&& db1.buffer[db0.buffer.len() as int] == (
                    proposal,
                    WriteOpData::DeleteLease(id),
                    )
                    &&& forall|i: int|
                        0 <= i < keys.len() ==> db1.buffer[db0.buffer.len() + 1 + i] == (
                        proposal,
                        WriteOpData::PutKeyValue(
                            Revision { revision: rev, sub_revision: i as i64 },
                            tombstone_of(db0.tables.kv_tbl[#[trigger] ix0[keys[i]]], rev),
                        ),
                        )
                },
            }
        },
        Err(e) => {
            &&& (e == ExecuteError::LeaseNotFound(id) <==> !c.leases.contains_key(id))
            &&& (e == ExecuteError::LeaseNotFound(id) || e == ExecuteError::DbError(
                DbFault::MissingIndexEntry,
            ) || e == ExecuteError::DbError(DbFault::MissingKeyValue))
            &&& s1.collection == c
            &&& db1 == (DbView {
                buffer: db0.buffer.push((proposal, WriteOpData::DeleteLease(id))),
                ..db0
            })
            &&& (e == ExecuteError::LeaseNotFound(id) ==> s1 == s0 && ix1 == ix0)
            &&& (e != ExecuteError::LeaseNotFound(id) ==> s1.revision == s0.revision + 1
                && exists|i: int|
                {
                    &&& 0 <= i < keys.len()
                    &&& (forall|j: int|
                        0 <= j < i ==> ix0.contains_key(#[trigger] keys[j])
                            && db0.tables.kv_tbl.contains_key(ix0[keys[j]]))
                    &&& (e == ExecuteError::DbError(DbFault::MissingIndexEntry)
                        ==> !ix0.contains_key(keys[i]) && ix1 == map_minus_keys(
                        ix0,
                        keys.take(i),
                    ))
                    &&& (e == ExecuteError::DbError(DbFault::MissingKeyValue)
                        ==> ix0.contains_key(keys[i]) && !db0.tables.kv_tbl.contains_key(
                        ix0[keys[i]],
                    ) && ix1 == map_minus_keys(ix0, keys.take(i + 1)))
                })
        },
    }
}

/// Mathematical model of the store: the collection, the leadership flag and
/// the current revision.
#[verifier::ext_equal]
pub struct StoreView {
    pub collection: CollectionView,
    pub leader: bool,
    pub revision: i64,
}

/// The lease store.
pub struct LeaseStore {
    lease_collection: LeaseCollection,
    leader: bool,
    revision: i64,
}

impl View for LeaseStore {
    type V = StoreView;

    closed spec fn view(&self) -> StoreView {
        StoreView {
            collection: self.lease_collection@,
            leader: self.leader,
            revision: self.revision,
        }
    }
}

impl LeaseStore {
    /// The representation is consistent and the collection invariants hold.
    pub closed spec fn wf(&self) -> bool {
        &&& self.lease_collection.wf()
        &&& collection_inv(self.lease_collection@)
        &&& self.revision >= 0
    }

    /// A fresh store with no leases and revision zero.
    pub fn new(is_leader: bool) -> (r: LeaseStore)
        ensures
            r.wf(),
            r@.collection.leases == Map::<i64, LeaseData>::empty(),
            r@.collection.items == Map::<Seq<u8>, i64>::empty(),
            r@.collection.queue == Map::<i64, u64>::empty(),
            r@.leader == is_leader,
            r@.revision == 0,
            queue_complete(r@.collection),
    {
        LeaseStore { lease_collection: LeaseCollection::new(), leader: is_leader, revision: 0 }
    }

    /// Whether this node currently leads.
    pub fn is_leader(&self) -> (r: bool)
        ensures
            r == self@.leader,
    {
        self.leader
    }

    /// Record a leadership change reported by consensus.
    pub fn set_leader(&mut self, is_leader: bool)
        requires
            old(self).wf(),
        ensures
            final(self).wf(),
            final(self)@ == (StoreView { leader: is_leader, ..old(self)@ }),
    {
        self.leader = is_leader;
    }

    /// A header carrying the current revision.
    pub fn gen_header(&self) -> (r: ResponseHeader)
        ensures
            r == (ResponseHeader { revision: self@.revision }),
    {
        ResponseHeader { revision: self.revision }
    }

    /// A header carrying no revision.
    pub fn gen_header_without_revision(&self) -> (r: ResponseHeader)
        ensures
            r == (ResponseHeader { revision: 0 }),
    {
        ResponseHeader { revision: 0 }
    }

    /// Validate a request before consensus and produce its response body.
    /// Nothing is mutated here.
    pub fn execute(&self, request: &RequestWrapper) -> (r: Result<ResponseWrapper, ExecuteError>)
        requires
            self.wf(),
        ensures
            match *request {
                RequestWrapper::LeaseGrantRequest(req) => r == (if req.id == 0 {
                    Err::<ResponseWrapper, ExecuteError>(ExecuteError::LeaseNotFound(0))
                } else if req.ttl > MAX_LEASE_TTL {
                    Err::<ResponseWrapper, ExecuteError>(ExecuteError::LeaseTtlTooLarge(req.ttl))
                } else if self@.collection.leases.contains_key(req.id) {
                    Err::<ResponseWrapper, ExecuteError>(ExecuteError::LeaseAlreadyExists(req.id))
                } else {
                    Ok::<ResponseWrapper, ExecuteError>(
                        ResponseWrapper::LeaseGrantResponse(
                            LeaseGrantResponse {
                                header: Some(ResponseHeader { revision: 0 }),
                                id: req.id,
                                ttl: req.ttl,
                            },
                        ),
                    )
                }),
                RequestWrapper::LeaseRevokeRequest(req) => r == (if self@.collection.leases.contains_key(req.id) {
                    Ok::<ResponseWrapper, ExecuteError>(
                        ResponseWrapper::LeaseRevokeResponse(
                            LeaseRevokeResponse { header: Some(ResponseHeader { revision: 0 }) },
                        ),
                    )
                } else {
                    Err::<ResponseWrapper, ExecuteError>(ExecuteError::LeaseNotFound(req.id))
                }),
            },
    {
        self.handle_lease_requests(request)
    }

    /// Dispatch a request to its execute handler.
    pub fn handle_lease_requests(&self, request: &RequestWrapper) -> (r: Result<
        ResponseWrapper,
        ExecuteError,
    >)
        requires
            self.wf(),
        ensures
            match *request {
                RequestWrapper::LeaseGrantRequest(req) => match r {
                    Ok(ResponseWrapper::LeaseGrantResponse(resp)) => self.grant_accepted(req)
                        && resp == (LeaseGrantResponse {
                        header: Some(ResponseHeader { revision: 0 }),
                        id: req.id,
                        ttl: req.ttl,
                    }),
                    Ok(_) => false,
                    Err(e) => !self.grant_accepted(req) && e == self.grant_error(req),
                },
                RequestWrapper::LeaseRevokeRequest(req) => match r {
                    Ok(ResponseWrapper::LeaseRevokeResponse(resp)) => self@.collection.leases.contains_key(req.id)
                        && resp == (LeaseRevokeResponse {
                        header: Some(ResponseHeader { revision: 0 }),
                    }),
                    Ok(_) => false,
                    Err(e) => !self@.collection.leases.contains_key(req.id) && e
                        == ExecuteError::LeaseNotFound(req.id),
                },
            },
    {
        match request {
            RequestWrapper::LeaseGrantRequest(req) => {
                match self.handle_lease_grant_request(req) {
                    Ok(resp) => Ok(ResponseWrapper::LeaseGrantResponse(resp)),
                    Err(e) => Err(e),
                }
            },
            RequestWrapper::LeaseRevokeRequest(req) => {
                match self.handle_lease_revoke_request(req) {
                    Ok(resp) => Ok(ResponseWrapper::LeaseRevokeResponse(resp)),
                    Err(e) => Err(e),
                }
            },
        }
    }

    /// True iff a grant request passes validation.
    pub open spec fn grant_accepted(&self, req: LeaseGrantRequest) -> bool {
        req.id != 0 && req.ttl <= MAX_LEASE_TTL && !self@.collection.leases.contains_key(req.id)
    }

    /// The error a rejected grant request draws: a zero id is unknown, then
    /// an oversized time to live, then an id already in use.
    pub open spec fn grant_error(&self, req: LeaseGrantRequest) -> ExecuteError {
        if req.id == 0 {
            ExecuteError::LeaseNotFound(0)
        } else if req.ttl > MAX_LEASE_TTL {
            ExecuteError::LeaseTtlTooLarge(req.ttl)
        } else {
            ExecuteError::LeaseAlreadyExists(req.id)
        }
    }

    /// Validate a grant: the id must be non-zero and unused, the time to
    /// live within the maximum. The response echoes the requested time to
    /// live, not the clamped one.
    pub fn handle_lease_grant_request(&self, req: &LeaseGrantRequest) -> (r: Result<
        LeaseGrantResponse,
        ExecuteError,
    >)
        requires
            self.wf(),
        ensures
            r == (if self.grant_accepted(*req) {
                Ok::<LeaseGrantResponse, ExecuteError>(
                    LeaseGrantResponse {
                        header: Some(ResponseHeader { revision: 0 }),
                        id: req.id,
                        ttl: req.ttl,
                    },
                )
            } else {
                Err::<LeaseGrantResponse, ExecuteError>(self.grant_error(*req))
            }),
    {
        if req.id == 0 {
            return Err(ExecuteError::LeaseNotFound(0));
        }
        if req.ttl > MAX_LEASE_TTL {
            return Err(ExecuteError::LeaseTtlTooLarge(req.ttl));
        }
        if self.lease_collection.contains_lease(req.id) {
            return Err(ExecuteError::LeaseAlreadyExists(req.id));
        }
        Ok(LeaseGrantResponse {
            header: Some(self.gen_header_without_revision()),
            id: req.id,
            ttl: req.ttl,
        })
    }

    /// Validate a revoke: the lease must exist.
    pub fn handle_lease_revoke_request(&self, req: &LeaseRevokeRequest) -> (r: Result<
        LeaseRevokeResponse,
        ExecuteError,
    >)
        requires
            self.wf(),
        ensures
            r == (if self@.collection.leases.contains_key(req.id) {
                Ok::<LeaseRevokeResponse, ExecuteError>(
                    LeaseRevokeResponse { header: Some(ResponseHeader { revision: 0 }) },
                )
            } else {
                Err::<LeaseRevokeResponse, ExecuteError>(ExecuteError::LeaseNotFound(req.id))
            }),
    {
        if self.lease_collection.contains_lease(req.id) {
            Ok(LeaseRevokeResponse { header: Some(self.gen_header_without_revision()) })
        } else {
            Err(ExecuteError::LeaseNotFound(req.id))
        }
    }

    /// Apply a committed grant: store the record in the collection and
    /// buffer its persisted form under the proposal. The revision does not
    /// advance. A zero id, rejected at execute time, is refused here too.
    pub fn sync_lease_grant_request(
        &mut self,
        db: &mut MemoryDb,
        proposal: u64,
        req: &LeaseGrantRequest,
    ) -> (r: Result<(), ExecuteError>)
        requires
            old(self).wf(),
            old(db).wf(),
        ensures
            final(self).wf(),
            final(db).wf(),
            queue_complete(old(self)@.collection) ==> queue_complete(final(self)@.collection),
            sync_grant_post(old(self)@, final(self)@, old(db)@, final(db)@, proposal, *req, r),
    {
        if req.id == 0 {
            return Err(ExecuteError::LeaseNotFound(0));
        }
        let is_leader = self.leader;
        let pb = self.lease_collection.grant(req.id, req.ttl, is_leader);
        db.buffer_op(proposal, WriteOp::PutLease(pb));
        proof {
            let now = choose|n: u64|
                self.lease_collection@ == spec_grant(
                    old(self).lease_collection@,
                    req.id,
                    req.ttl,
                    is_leader,
                    n,
                );
            assert(self@.collection == spec_grant(
                old(self)@.collection,
                req.id,
                req.ttl,
                old(self)@.leader,
                now,
            ));
        }
        Ok(())
    }

    /// Apply a committed revoke: buffer the record's deletion, delete every
    /// attached key from the index and the collection under one fresh
    /// revision, buffer a tombstone per key, drop the lease record, and
    /// hand back the delete events for the watchers — or `None` when the
    /// lease held no keys and the revision did not advance.
    ///
    /// An absent lease fails with not-found. A key the index or the
    /// key-value table does not know fails with a database fault: the state
    /// is then torn mid-cascade and the caller must treat the fault as
    /// fatal, as the apply loop does.
    #[verifier::rlimit(80)]
    #[verifier::loop_isolation(false)]
    pub fn sync_lease_revoke_request(
        &mut self,
        db: &mut MemoryDb,
        index: &mut Index,
        proposal: u64,
        req: &LeaseRevokeRequest,
    ) -> (r: Result<Option<(i64, Vec<Event>)>, ExecuteError>)
        requires
            old(self).wf(),
            old(db).wf(),
            old(index).wf(),
            old(self)@.revision < i64::MAX,
            old(self)@.collection.leases.contains_key(req.id) ==> old(
                self,
            )@.collection.leases[req.id].keys.len() <= i64::MAX,
        ensures
            final(self).wf(),
            final(db).wf(),
            final(index).wf(),
            queue_complete(old(self)@.collection) ==> queue_complete(final(self)@.collection),
            sync_revoke_post(
                old(self)@,
                final(self)@,
                old(db)@,
                final(db)@,
                old(index)@,
                final(index)@,
                proposal,
                req.id,
                r,
            ),
    {
        let ghost c0 = self@.collection;
        let ghost db0 = db@;
        let ghost ix0 = index@;
        db.buffer_op(proposal, WriteOp::DeleteLease(req.id));
        let lease = match self.lease_collection.look_up(req.id) {
            Some(l) => l,
            None => {
                return Err(ExecuteError::LeaseNotFound(req.id));
            },
        };
        let keys = lease.keys();
        let ghost kseq = c0.leases[req.id as i64].keys;
        proof {
            assert(keys.deep_view() == kseq);
            assert(kseq.no_duplicates());
        }
        if keys.len() == 0 {
            self.lease_collection.revoke(req.id);
            proof {
                assert(self@.collection =~= spec_revoke(c0, req.id));
            }
            return Ok(None);
        }
        let revision: i64 = self.revision + 1;
        self.revision = revision;

        // Delete each key from the index, in attachment order, under
        // ascending sub-revisions, and fetch each prior record.
        let mut prev_kvs: Vec<KeyValue> = Vec::new();
        let mut i: usize = 0;
        proof {
            assert(index@ =~= map_minus_keys(ix0, kseq.take(0int)));
        }
        while i < keys.len()
            invariant
                0 <= i <= kseq.len(),
                kseq.len() <= i64::MAX,
                keys.deep_view() == kseq,
                kseq.no_duplicates(),
                index.wf(),
                db.wf(),
                db@ == (DbView { buffer: db0.buffer.push((proposal, WriteOpData::DeleteLease(req.id))), ..db0 }),
                index@ == map_minus_keys(ix0, kseq.take(i as int)),
                prev_kvs@.len() == i,
                forall|k: int|
                    0 <= k < i ==> ix0.contains_key(#[trigger] kseq[k])
                        && db0.tables.kv_tbl.contains_key(ix0[kseq[k]]),
                forall|k: int|
                    0 <= k < i ==> (#[trigger] prev_kvs@[k])@ == db0.tables.kv_tbl[ix0[kseq[k]]],
            decreases kseq.len() - i,
        {
            let ghost ixpre = index@;
            let empty_end: Vec<u8> = Vec::new();
            let sub: i64 = i as i64;
            let pairs = index.delete(keys[i].as_slice(), empty_end.as_slice(), revision, sub);
            proof {
                assert(keys[i as int]@ == kseq[i as int]);
                assert(!contains_key(kseq.take(i as int), kseq[i as int])) by {
                    if contains_key(kseq.take(i as int), kseq[i as int]) {
                        let w = choose|w: int|
                            0 <= w < i && kseq.take(i as int)[w] == kseq[i as int];
                        assert(kseq[w] == kseq[i as int]);
                    }
                }
            }
            if pairs.len() == 0 {
                proof {
                    assert(!ixpre.contains_key(kseq[i as int]));
                    assert(!ix0.contains_key(kseq[i as int]));
                    assert(index@ == ixpre);
                    assert(0 <= i < kseq.len() && !ix0.contains_key(kseq[i as int]) && index@
                        == map_minus_keys(ix0, kseq.take(i as int)));
                }
                return Err(ExecuteError::DbError(DbFault::MissingIndexEntry));
            }
            let prev_rev = pairs[0].0;
            proof {
                assert(ixpre.contains_key(kseq[i as int]));
                assert(ix0.contains_key(kseq[i as int]));
                assert(prev_rev == ix0[kseq[i as int]]);
                let long = kseq.take(i + 1);
                let short = kseq.take(i as int);
                assert(long.drop_last() =~= short);
                assert(long.last() == kseq[i as int]);
                assert(index@ =~= map_minus_keys(ix0, long)) by {
                    assert forall|k2: Seq<u8>| #[trigger] index@.contains_key(k2)
                        <==> map_minus_keys(ix0, long).contains_key(k2) by {
                        crate::bytes::lemma_contains_push(short, kseq[i as int], k2);
                        assert(long =~= short.push(kseq[i as int]));
                    }
                }
            }
            let prev = match db.get_value(prev_rev) {
                Some(kv) => kv,
                None => {
                    proof {
                        assert(!db0.tables.kv_tbl.contains_key(ix0[kseq[i as int]]));
                        assert(0 <= i < kseq.len() && ix0.contains_key(kseq[i as int])
                            && !db0.tables.kv_tbl.contains_key(ix0[kseq[i as int]]) && index@
                            == map_minus_keys(ix0, kseq.take(i + 1)));
                    }
                    return Err(ExecuteError::DbError(DbFault::MissingKeyValue));
                },
            };
            prev_kvs.push(prev);
            i = i + 1;
        }
        proof {
            assert(kseq.take(kseq.len() as int) =~= kseq);
        }

        // Detach every key from the collection, in the same order.
        let mut k: usize = 0;
        let ghost cpre = self@.collection;
        proof {
            assert(cpre == (CollectionView {
                leases: c0.leases,
                items: c0.items,
                queue: c0.queue,
            }));
            assert(cpre =~= c0);
            assert(kseq.skip(0int) =~= kseq);
            assert(c0.leases.insert(req.id as i64, (LeaseData {
                keys: kseq.skip(0int),
                ..c0.leases[req.id as i64]
            })) =~= c0.leases);
            assert(map_minus_keys(c0.items, kseq.take(0int)) =~= c0.items);
        }
        while k < keys.len()
            invariant
                0 <= k <= kseq.len(),
                keys.deep_view() == kseq,
                kseq.no_duplicates(),
                self.wf(),
                self@.leader == old(self)@.leader,
                self@.revision == revision,
                self@.collection == (CollectionView {
                    leases: c0.leases.insert(req.id as i64, (LeaseData {
                        keys: kseq.skip(k as int),
                        ..c0.leases[req.id as i64]
                    })),
                    items: map_minus_keys(c0.items, kseq.take(k as int)),
                    queue: c0.queue,
                }),
                collection_inv(c0),
                c0.leases.contains_key(req.id as i64),
                queue_complete(c0) ==> queue_complete(self@.collection),
            decreases kseq.len() - k,
        {
            let ghost cb = self@.collection;
            proof {
                assert(cb.leases.contains_key(req.id as i64));
                assert(cb.leases[req.id as i64].keys == kseq.skip(k as int));
                assert(kseq.skip(k as int)[0] == kseq[k as int]);
                assert(contains_key(cb.leases[req.id as i64].keys, kseq[k as int]));
                assert(kseq.skip(k as int).no_duplicates()) by {
                    assert forall|a: int, b: int|
                        0 <= a < b < kseq.skip(k as int).len() implies kseq.skip(k as int)[a]
                        != kseq.skip(k as int)[b] by {
                        assert(kseq.skip(k as int)[a] == kseq[k + a]);
                        assert(kseq.skip(k as int)[b] == kseq[k + b]);
                    }
                }
                lemma_remove_first(kseq.skip(k as int));
                assert(kseq.skip(k as int).skip(1) =~= kseq.skip(k + 1));
            }
            match self.lease_collection.detach(req.id, keys[k].as_slice()) {
                Ok(_) => {},
                Err(_) => {
                    proof {
                        assert(false);
                    }
                },
            }
            proof {
                assert(keys[k as int]@ == kseq[k as int]);
                let long = kseq.take(k + 1);
                let short = kseq.take(k as int);
                assert(long =~= short.push(kseq[k as int]));
                assert(self@.collection.leases =~= c0.leases.insert(req.id as i64, (LeaseData {
                    keys: kseq.skip(k + 1),
                    ..c0.leases[req.id as i64]
                })));
                assert(self@.collection.items =~= map_minus_keys(c0.items, long)) by {
                    assert forall|k2: Seq<u8>| #[trigger] self@.collection.items.contains_key(k2)
                        <==> map_minus_keys(c0.items, long).contains_key(k2) by {
                        crate::bytes::lemma_contains_push(short, kseq[k as int], k2);
                    }
                }
            }
            k = k + 1;
        }

        // Buffer one tombstone per key and build the matching delete
        // events.
        let mut events: Vec<Event> = Vec::new();
        let ghost b1 = db@.buffer;
        let mut t: usize = 0;
        while t < prev_kvs.len()
            invariant
                0 <= t <= prev_kvs@.len(),
                prev_kvs@.len() == kseq.len(),
                kseq.len() <= i64::MAX,
                forall|q: int|
                    0 <= q < kseq.len() ==> ix0.contains_key(#[trigger] kseq[q])
                        && db0.tables.kv_tbl.contains_key(ix0[kseq[q]]),
                forall|q: int|
                    0 <= q < kseq.len() ==> (#[trigger] prev_kvs@[q])@
                        == db0.tables.kv_tbl[ix0[kseq[q]]],
                db.wf(),
                db@.tables == db0.tables,
                db@.buffer.len() == b1.len() + t,
                forall|q: int| 0 <= q < b1.len() ==> db@.buffer[q] == #[trigger] b1[q],
                forall|q: int|
                    0 <= q < t ==> db@.buffer[b1.len() + q] == (
                    proposal,
                    WriteOpData::PutKeyValue(
                        Revision { revision: revision, sub_revision: q as i64 },
                        tombstone_of(db0.tables.kv_tbl[ix0[#[trigger] kseq[q]]], revision),
                    ),
                    ),
                events@.len() == t,
                forall|q: int|
                    0 <= q < t ==> (#[trigger] events@[q])@ == (crate::rpc::EventData {
                        event_type: EventType::Delete,
                        kv: Some(tombstone_of(db0.tables.kv_tbl[ix0[kseq[q]]], revision)),
                        prev_kv: Some(db0.tables.kv_tbl[ix0[kseq[q]]]),
                    }),
            decreases prev_kvs@.len() - t,
        {
            let prev = prev_kvs[t].duplicate();
            let tomb = KeyValue {
                key: clone_bytes(&prev.key),
                value: Vec::new(),
                create_revision: 0,
                mod_revision: revision,
                version: 0,
                lease: 0,
            };
            let event_kv = tomb.duplicate();
            let sub: i64 = t as i64;
            proof {
                assert(tomb@ =~= tombstone_of(prev_kvs@[t as int]@, revision));
            }
            db.buffer_op(proposal, WriteOp::PutKeyValue(Revision { revision, sub_revision: sub }, tomb));
            events.push(Event { event_type: EventType::Delete, kv: Some(event_kv), prev_kv: Some(prev) });
            proof {
                assert(events@[t as int]@ == (crate::rpc::EventData {
                    event_type: EventType::Delete,
                    kv: Some(tombstone_of(db0.tables.kv_tbl[ix0[kseq[t as int]]], revision)),
                    prev_kv: Some(db0.tables.kv_tbl[ix0[kseq[t as int]]]),
                }));
            }
            t = t + 1;
        }

        // Only now does the record itself go.
        self.lease_collection.revoke(req.id);
        proof {
            assert(kseq.skip(kseq.len() as int) =~= Seq::<Seq<u8>>::empty());
            assert(kseq.take(kseq.len() as int) =~= kseq);
            assert(self@.collection.leases =~= revoke_cascade_collection(c0, req.id as i64).leases);
            assert(self@.collection =~= revoke_cascade_collection(c0, req.id as i64));
            assert forall|k2: int| 0 <= k2 < db0.buffer.len() implies db@.buffer[k2] == db0.buffer[k2] by {
                assert(db@.buffer[k2] == b1[k2]);
                assert(b1[k2] == db0.buffer.push((proposal, WriteOpData::DeleteLease(req.id)))[k2]);
            }
            assert(db@.buffer[db0.buffer.len() as int] == b1[db0.buffer.len() as int]);
            assert(b1[db0.buffer.len() as int] == (proposal, WriteOpData::DeleteLease(req.id)));
        }
        Ok(Some((revision, events)))
    }

    /// Apply a committed request and return the revision afterwards,
    /// together with the delete events a revoke produced for the watchers.
    pub fn after_sync(
        &mut self,
        db: &mut MemoryDb,
        index: &mut Index,
        proposal: u64,
        request: &RequestWrapper,
    ) -> (r: Result<(i64, Option<(i64, Vec<Event>)>), ExecuteError>)
        requires
            old(self).wf(),
            old(db).wf(),
            old(index).wf(),
            old(self)@.revision < i64::MAX,
            (match *request {
                RequestWrapper::LeaseRevokeRequest(req) => old(
                    self,
                )@.collection.leases.contains_key(req.id) ==> old(
                    self,
                )@.collection.leases[req.id].keys.len() <= i64::MAX,
                _ => true,
            }),
        ensures
            final(self).wf(),
            final(db).wf(),
            final(index).wf(),
            queue_complete(old(self)@.collection) ==> queue_complete(final(self)@.collection),
            match *request {
                RequestWrapper::LeaseGrantRequest(req) => {
                    &&& final(index)@ == old(index)@
                    &&& match r {
                        Ok((rev, upd)) => {
                            &&& rev == old(self)@.revision
                            &&& rev == final(self)@.revision
                            &&& upd is None
                            &&& sync_grant_post(
                                old(self)@,
                                final(self)@,
                                old(db)@,
                                final(db)@,
                                proposal,
                                req,
                                Ok(()),
                            )
                        },
                        Err(e) => sync_grant_post(
                            old(self)@,
                            final(self)@,
                            old(db)@,
                            final(db)@,
                            proposal,
                            req,
                            Err(e),
                        ),
                    }
                },
                RequestWrapper::LeaseRevokeRequest(req) => match r {
                    Ok((rev, upd)) => {
                        &&& rev == final(self)@.revision
                        &&& sync_revoke_post(
                            old(self)@,
                            final(self)@,
                            old(db)@,
                            final(db)@,
                            old(index)@,
                            final(index)@,
                            proposal,
                            req.id,
                            Ok(upd),
                        )
                    },
                    Err(e) => sync_revoke_post(
                        old(self)@,
                        final(self)@,
                        old(db)@,
                        final(db)@,
                        old(index)@,
                        final(index)@,
                        proposal,
                        req.id,
                        Err(e),
                    ),
                },
            },
    {
        match request {
            RequestWrapper::LeaseGrantRequest(req) => {
                self.sync_lease_grant_request(db, proposal, req)?;
                Ok((self.revision, None))
            },
            RequestWrapper::LeaseRevokeRequest(req) => {
                let updates = self.sync_lease_revoke_request(db, index, proposal, req)?;
                Ok((self.revision, updates))
            },
        }
    }

    /// A copy of the record for `lease_id`, if one is live.
    pub fn look_up(&self, lease_id: i64) -> (r: Option<Lease>)
        requires
            self.wf(),
        ensures
            match r {
                Some(l) => self@.collection.leases.contains_key(lease_id) && l@
                    == self@.collection.leases[lease_id],
                None => !self@.collection.leases.contains_key(lease_id),
            },
    {
        self.lease_collection.look_up(lease_id)
    }

    /// Every live lease, ordered by ascending remaining time.
    pub fn leases(&self) -> (r: Vec<Lease>)
        requires
            self.wf(),
        ensures
            forall|i: int|
                0 <= i < r@.len() ==> self@.collection.leases.contains_key(#[trigger] r@[i]@.id)
                    && self@.collection.leases[r@[i]@.id] == r@[i]@,
            forall|id: i64| #[trigger] self@.collection.leases.contains_key(id) ==> exists|i: int|
                0 <= i < r@.len() && r@[i]@.id == id,
            forall|i: int, j: int| 0 <= i < j < r@.len() ==> r@[i]@.id != r@[j]@.id,
            forall|i: int, j: int|
                0 <= i < j < r@.len() ==> crate::lease::expiry_key(r@[i]@) <= crate::lease::expiry_key(r@[j]@),
    {
        self.lease_collection.leases()
    }

    /// Drain the expired ids at the current instant.
    pub fn find_expired_leases(&mut self) -> (r: Vec<i64>)
        requires
            old(self).wf(),
        ensures
            final(self).wf(),
            final(self)@.leader == old(self)@.leader,
            final(self)@.revision == old(self)@.revision,
            exists|now: u64|
                find_expired_post(old(self)@.collection, final(self)@.collection, r@, now),
    {
        let r = self.lease_collection.find_expired_leases();
        proof {
            let now = choose|n: u64|
                find_expired_post(old(self).lease_collection@, self.lease_collection@, r@, n);
            assert(find_expired_post(old(self)@.collection, self@.collection, r@, now));
        }
        r
    }

    /// The keys attached to `lease_id`, in attachment order; none when the
    /// lease is absent.
    pub fn get_keys(&self, lease_id: i64) -> (r: Vec<Vec<u8>>)
        requires
            self.wf(),
        ensures
            r.deep_view() == (if self@.collection.leases.contains_key(lease_id) {
                self@.collection.leases[lease_id].keys
            } else {
                Seq::<Seq<u8>>::empty()
            }),
    {
        match self.lease_collection.look_up(lease_id) {
            Some(l) => l.keys(),
            None => {
                let r: Vec<Vec<u8>> = Vec::new();
                proof {
                    assert(r.deep_view() =~= Seq::<Seq<u8>>::empty());
                }
                r
            },
        }
    }

    /// Renew a lease; a follower refuses with not-leader.
    pub fn keep_alive(&mut self, lease_id: i64) -> (r: Result<i64, ExecuteError>)
        requires
            old(self).wf(),
        ensures
            final(self).wf(),
            final(self)@.leader == old(self)@.leader,
            final(self)@.revision == old(self)@.revision,
            queue_complete(old(self)@.collection) ==> queue_complete(final(self)@.collection),
            !old(self)@.leader ==> r == Err::<i64, ExecuteError>(ExecuteError::LeaseNotLeader)
                && final(self)@ == old(self)@,
            old(self)@.leader ==> match r {
                Ok(ttl) => {
                    &&& old(self)@.collection.leases.contains_key(lease_id)
                    &&& ttl == old(self)@.collection.leases[lease_id].ttl as i64
                    &&& exists|now: u64|
                        final(self)@.collection == spec_renew(
                            old(self)@.collection,
                            lease_id,
                            now,
                        )
                },
                Err(e) => {
                    &&& final(self)@ == old(self)@
                    &&& (e == ExecuteError::LeaseNotFound(lease_id) || e
                        == ExecuteError::LeaseExpired(lease_id))
                    &&& (e == ExecuteError::LeaseNotFound(lease_id) <==> !old(
                        self,
                    )@.collection.leases.contains_key(lease_id))
                    &&& (e == ExecuteError::LeaseExpired(lease_id) ==> old(
                        self,
                    )@.collection.leases.contains_key(lease_id)
                        && old(self)@.collection.leases[lease_id].expiry is Some)
                },
            },
    {
        if !self.is_leader() {
            return Err(ExecuteError::LeaseNotLeader);
        }
        let r = self.lease_collection.renew(lease_id);
        proof {
            if r is Ok {
                let now = choose|n: u64|
                    self.lease_collection@ == spec_renew(
                        old(self).lease_collection@,
                        lease_id,
                        n,
                    );
                assert(self@.collection == spec_renew(old(self)@.collection, lease_id, now));
            }
        }
        r
    }

    /// Attach `key` to a lease, on behalf of the key-value store.
    pub fn attach(&mut self, lease_id: i64, key: Vec<u8>) -> (r: Result<(), ExecuteError>)
        requires
            old(self).wf(),
        ensures
            final(self).wf(),
            final(self)@ == (StoreView {
                collection: crate::lease_collection::spec_attach(
                    old(self)@.collection,
                    lease_id,
                    key@,
                ),
                ..old(self)@
            }),
            queue_complete(old(self)@.collection) ==> queue_complete(final(self)@.collection),
            r == (if old(self)@.collection.leases.contains_key(lease_id) {
                Ok::<(), ExecuteError>(())
            } else {
                Err::<(), ExecuteError>(ExecuteError::LeaseNotFound(lease_id))
            }),
    {
        self.lease_collection.attach(lease_id, key)
    }

    /// Detach `key` from a lease, on behalf of the key-value store.
    pub fn detach(&mut self, lease_id: i64, key: &[u8]) -> (r: Result<(), ExecuteError>)
        requires
            old(self).wf(),
        ensures
            final(self).wf(),
            final(self)@ == (StoreView {
                collection: spec_detach(old(self)@.collection, lease_id, key@),
                ..old(self)@
            }),
            queue_complete(old(self)@.collection) ==> queue_complete(final(self)@.collection),
            r == (if old(self)@.collection.leases.contains_key(lease_id) {
                Ok::<(), ExecuteError>(())
            } else {
                Err::<(), ExecuteError>(ExecuteError::LeaseNotFound(lease_id))
            }),
    {
        self.lease_collection.detach(lease_id, key)
    }

    /// The id of the lease that owns `key`, or zero for an unattached key.
    pub fn get_lease(&self, key: &[u8]) -> (r: i64)
        requires
            self.wf(),
        ensures
            r == (if self@.collection.items.contains_key(key@) {
                self@.collection.items[key@]
            } else {
                0
            }),
    {
        self.lease_collection.get_lease(key)
    }

    /// Check if a lease exists.
    pub fn contains_lease(&self, lease_id: i64) -> (r: bool)
        requires
            self.wf(),
        ensures
            r == self@.collection.leases.contains_key(lease_id),
    {
        self.lease_collection.contains_lease(lease_id)
    }

    /// Demote this node: stop leading and extinguish every timer.
    pub fn demote(&mut self)
        requires
            old(self).wf(),
        ensures
            final(self).wf(),
            final(self)@.leader == false,
            final(self)@.revision == old(self)@.revision,
            final(self)@.collection == crate::lease_collection::spec_demote(old(self)@.collection),
            queue_complete(final(self)@.collection),
    {
        self.leader = false;
        self.lease_collection.demote();
    }

    /// Promote this node at `now` with the grace period `extend`: start
    /// leading and restart every timer.
    pub fn promote_at(&mut self, extend: u64, now: u64)
        requires
            old(self).wf(),
        ensures
            final(self).wf(),
            final(self)@.leader == true,
            final(self)@.revision == old(self)@.revision,
            final(self)@.collection == crate::lease_collection::spec_promote(
                old(self)@.collection,
                extend,
                now,
            ),
            queue_complete(final(self)@.collection),
    {
        self.leader = true;
        self.lease_collection.promote_at(extend, now);
    }

    /// Promote this node at the instant the clock reads now.
    pub fn promote(&mut self, extend: u64)
        requires
            old(self).wf(),
        ensures
            final(self).wf(),
            final(self)@.leader == true,
            final(self)@.revision == old(self)@.revision,
            queue_complete(final(self)@.collection),
            exists|now: u64|
                final(self)@.collection == crate::lease_collection::spec_promote(
                    old(self)@.collection,
                    extend,
                    now,
                ),
    {
        self.leader = true;
        let ghost cpre = self.lease_collection@;
        self.lease_collection.promote(extend);
        proof {
            let now = choose|n: u64|
                self.lease_collection@ == crate::lease_collection::spec_promote(cpre, extend, n);
            assert(self@.collection == crate::lease_collection::spec_promote(
                old(self)@.collection,
                extend,
                now,
            ));
        }
    }

    /// Reload every stored lease record into the collection, without expiry
    /// and without keys: the key-value recovery that runs afterwards
    /// re-attaches them. Fails when a stored record does not decode or
    /// carries the reserved id zero.
    #[verifier::loop_isolation(false)]
    #[verifier::rlimit(100)]
    pub fn recover(&mut self, db: &MemoryDb) -> (r: Result<(), ExecuteError>)
        requires
            old(self).wf(),
            db.wf(),
        ensures
            final(self).wf(),
            final(self)@.leader == old(self)@.leader,
            final(self)@.revision == old(self)@.revision,
            r is Ok <==> (forall|id: i64| #[trigger] db@.tables.lease_tbl.contains_key(id)
                ==> spec_decode_pb(db@.tables.lease_tbl[id]) is Some && spec_decode_pb(
                db@.tables.lease_tbl[id],
            ).unwrap().id != 0),
            match r {
                Ok(()) => {
                    &&& forall|id: i64| #[trigger] db@.tables.lease_tbl.contains_key(id) ==> {
                        let x = spec_decode_pb(db@.tables.lease_tbl[id]).unwrap().id;
                        final(self)@.collection.leases.contains_key(x) && recovered_from_table(
                            db@.tables.lease_tbl,
                            final(self)@.collection.leases,
                            x,
                        )
                    }
                    &&& forall|x: i64| old(self)@.collection.leases.contains_key(x)
                        ==> #[trigger] final(self)@.collection.leases.contains_key(x)
                    &&& forall|x: i64| #[trigger] final(self)@.collection.leases.contains_key(x)
                        ==> old(self)@.collection.leases.contains_key(x) || (exists|id: i64|
                        #[trigger] db@.tables.lease_tbl.contains_key(id) && spec_decode_pb(
                            db@.tables.lease_tbl[id],
                        ).unwrap().id == x)
                    &&& forall|x: i64| #[trigger] final(self)@.collection.queue.contains_key(x)
                        ==> old(self)@.collection.queue.contains_key(x)
                            && final(self)@.collection.queue[x] == old(self)@.collection.queue[x]
                    &&& forall|k: Seq<u8>| #[trigger] final(self)@.collection.items.contains_key(k)
                        ==> old(self)@.collection.items.contains_key(k)
                            && final(self)@.collection.items[k] == old(self)@.collection.items[k]
                    &&& (forall|id: i64| #[trigger] db@.tables.lease_tbl.contains_key(id)
                        ==> spec_decode_pb(db@.tables.lease_tbl[id]).unwrap().id == id) ==> {
                        forall|id: i64| #[trigger] db@.tables.lease_tbl.contains_key(id)
                            ==> final(self)@.collection.leases.contains_key(id)
                            && final(self)@.collection.leases[id] == recovered_lease(
                            spec_decode_pb(db@.tables.lease_tbl[id]).unwrap(),
                        )
                    }
                },
                Err(e) => {
                    &&& (e == ExecuteError::DbError(DbFault::CorruptLeaseRecord) || e
                        == ExecuteError::DbError(DbFault::ZeroLeaseId))
                    &&& (e == ExecuteError::DbError(DbFault::CorruptLeaseRecord) ==> exists|id: i64|
                        #[trigger] db@.tables.lease_tbl.contains_key(id) && spec_decode_pb(
                            db@.tables.lease_tbl[id],
                        ) is None)
                    &&& (e == ExecuteError::DbError(DbFault::ZeroLeaseId) ==> exists|id: i64|
                        #[trigger] db@.tables.lease_tbl.contains_key(id) && spec_decode_pb(
                            db@.tables.lease_tbl[id],
                        ) is Some && spec_decode_pb(db@.tables.lease_tbl[id]).unwrap().id == 0)
                },
            },
    {
        let records = db.get_all_leases();
        let r = self.recover_records(&records);
        proof {
            match &r {
                Ok(_) => {
                    lemma_recover_translate(
                        db@.tables.lease_tbl,
                        records@,
                        old(self)@.collection.leases,
                        self@.collection.leases,
                    );
                },
                Err(e) => {
                    if *e == ExecuteError::DbError(DbFault::CorruptLeaseRecord) {
                        let pp = choose|pp: int|
                            0 <= pp < records@.len() && spec_decode_pb(
                                (#[trigger] records@[pp]).1@,
                            ) is None;
                        assert(db@.tables.lease_tbl.contains_key(records@[pp].0)
                            && spec_decode_pb(db@.tables.lease_tbl[records@[pp].0]) is None);
                    } else {
                        let pp = choose|pp: int|
                            0 <= pp < records@.len() && spec_decode_pb(
                                (#[trigger] records@[pp]).1@,
                            ) is Some && spec_decode_pb(records@[pp].1@).unwrap().id == 0;
                        assert(db@.tables.lease_tbl.contains_key(records@[pp].0)
                            && spec_decode_pb(db@.tables.lease_tbl[records@[pp].0]) is Some
                            && spec_decode_pb(db@.tables.lease_tbl[records@[pp].0]).unwrap().id
                            == 0);
                    }
                },
            }
        }
        r
    }

    /// Replay one batch of persisted records into the collection, granting
    /// each follower-style; the caller translates the record-level outcome
    /// to its table. Fails on the first record that does not decode or
    /// carries the reserved id zero.
    #[verifier::rlimit(100)]
    fn recover_records(&mut self, records: &Vec<(i64, Vec<u8>)>) -> (r: Result<(), ExecuteError>)
        requires
            old(self).wf(),
            forall|a: int, b: int|
                0 <= a < b < records@.len() ==> (#[trigger] records@[a]).0 != (
                #[trigger] records@[b]).0,
        ensures
            final(self).wf(),
            final(self)@.leader == old(self)@.leader,
            final(self)@.revision == old(self)@.revision,
            r is Ok <==> (forall|p: int|
                0 <= p < records@.len() ==> spec_decode_pb(#[trigger] records@[p].1@) is Some
                    && spec_decode_pb(records@[p].1@).unwrap().id != 0),
            match r {
                Ok(()) => {
                    &&& forall|p: int|
                        0 <= p < records@.len() ==> #[trigger] rec_recovered(
                            records@,
                            records@.len() as int,
                            final(self)@.collection.leases,
                            p,
                        )
                    &&& forall|x: i64| old(self)@.collection.leases.contains_key(x)
                        ==> #[trigger] final(self)@.collection.leases.contains_key(x)
                    &&& forall|x: i64| #[trigger] final(self)@.collection.leases.contains_key(x)
                        ==> old(self)@.collection.leases.contains_key(x) || (exists|p: int|
                        0 <= p < records@.len() && spec_decode_pb(
                            (#[trigger] records@[p]).1@,
                        ).unwrap().id == x)
                    &&& forall|x: i64| #[trigger] final(self)@.collection.queue.contains_key(x)
                        ==> old(self)@.collection.queue.contains_key(x)
                            && final(self)@.collection.queue[x] == old(self)@.collection.queue[x]
                    &&& forall|k: Seq<u8>| #[trigger] final(self)@.collection.items.contains_key(k)
                        ==> old(self)@.collection.items.contains_key(k)
                            && final(self)@.collection.items[k] == old(self)@.collection.items[k]
                    &&& recs_ids_match(records@) ==> forall|p: int|
                        0 <= p < records@.len() ==> final(self)@.collection.leases.contains_key(
                            (#[trigger] records@[p]).0,
                        ) && final(self)@.collection.leases[records@[p].0] == recovered_lease(
                            spec_decode_pb(records@[p].1@).unwrap(),
                        )
                },
                Err(e) => {
                    &&& (e == ExecuteError::DbError(DbFault::CorruptLeaseRecord) || e
                        == ExecuteError::DbError(DbFault::ZeroLeaseId))
                    &&& (e == ExecuteError::DbError(DbFault::CorruptLeaseRecord) ==> exists|
                        pp: int|
                        0 <= pp < records@.len() && spec_decode_pb(
                            (#[trigger] records@[pp]).1@,
                        ) is None)
                    &&& (e == ExecuteError::DbError(DbFault::ZeroLeaseId) ==> exists|pp: int|
                        0 <= pp < records@.len() && spec_decode_pb(
                            (#[trigger] records@[pp]).1@,
                        ) is Some && spec_decode_pb(records@[pp].1@).unwrap().id == 0)
                },
            },
    {
        let mut i: usize = 0;
        while i < records.len()
            invariant
                self.wf(),
                0 <= i <= records@.len(),
                forall|a: int, b: int|
                    0 <= a < b < records@.len() ==> (#[trigger] records@[a]).0 != (
                    #[trigger] records@[b]).0,
                self@.leader == old(self)@.leader,
                self@.revision == old(self)@.revision,
                forall|p: int|
                    0 <= p < i ==> spec_decode_pb(#[trigger] records@[p].1@) is Some
                        && spec_decode_pb(records@[p].1@).unwrap().id != 0,
                forall|p: int|
                    0 <= p < i ==> #[trigger] rec_recovered(
                        records@,
                        i as int,
                        self@.collection.leases,
                        p,
                    ),
                forall|x: i64| old(self)@.collection.leases.contains_key(x)
                    ==> #[trigger] self@.collection.leases.contains_key(x),
                forall|x: i64| #[trigger] self@.collection.leases.contains_key(x)
                    ==> old(self)@.collection.leases.contains_key(x) || (exists|p: int|
                    0 <= p < i && spec_decode_pb((#[trigger] records@[p]).1@).unwrap().id == x),
                forall|x: i64| #[trigger] self@.collection.queue.contains_key(x)
                    ==> old(self)@.collection.queue.contains_key(x) && self@.collection.queue[x]
                    == old(self)@.collection.queue[x],
                forall|k: Seq<u8>| #[trigger] self@.collection.items.contains_key(k)
                    ==> old(self)@.collection.items.contains_key(k) && self@.collection.items[k]
                    == old(self)@.collection.items[k],
                recs_ids_match(records@) ==> forall|p: int|
                    0 <= p < i ==> self@.collection.leases.contains_key(
                        (#[trigger] records@[p]).0,
                    ) && self@.collection.leases[records@[p].0] == recovered_lease(
                        spec_decode_pb(records@[p].1@).unwrap(),
                    ),
            decreases records@.len() - i,
        {
            let pb = match decode_pb(records[i].1.as_slice()) {
                Some(pb) => pb,
                None => {
                    proof {
                        assert(0 <= i < records@.len() && spec_decode_pb(
                            records@[i as int].1@,
                        ) is None);
                    }
                    return Err(ExecuteError::DbError(DbFault::CorruptLeaseRecord));
                },
            };
            if pb.id == 0 {
                proof {
                    assert(0 <= i < records@.len() && spec_decode_pb(records@[i as int].1@) is Some
                        && spec_decode_pb(records@[i as int].1@).unwrap().id == 0);
                }
                return Err(ExecuteError::DbError(DbFault::ZeroLeaseId));
            }
            let ghost cpre = self@.collection;
            self.lease_collection.grant_at(pb.id, pb.ttl, false, 0);
            proof {
                assert(self@.collection.leases =~= cpre.leases.insert(pb.id, recovered_lease(pb)));
                lemma_recover_step(records@, i as int, pb, cpre.leases, self@.collection.leases);
            }
            i = i + 1;
        }
        Ok(())
    }
}

/// One step of a recovery pass: granting the decoded form of record `i`
/// carries the per-record facts from the first `i` records to the first
/// `i + 1`.
#[verifier::rlimit(100)]
proof fn lemma_recover_step(
    recs: Seq<(i64, Vec<u8>)>,
    i: int,
    pb: PbLease,
    leases0: Map<i64, LeaseData>,
    leases1: Map<i64, LeaseData>,
)
    requires
        0 <= i < recs.len(),
        forall|a: int, b: int| 0 <= a < b < recs.len() ==> (#[trigger] recs[a]).0 != (#[trigger] recs[b]).0,
        spec_decode_pb(recs[i].1@) == Some(pb),
        pb.id != 0,
        leases1 == leases0.insert(pb.id, recovered_lease(pb)),
        forall|p: int| 0 <= p < i ==> #[trigger] rec_recovered(recs, i, leases0, p),
        recs_ids_match(recs) ==> forall|p: int|
            0 <= p < i ==> leases0.contains_key((#[trigger] recs[p]).0) && leases0[recs[p].0]
                == recovered_lease(spec_decode_pb(recs[p].1@).unwrap()),
    ensures
        forall|p: int| 0 <= p < i + 1 ==> #[trigger] rec_recovered(recs, i + 1, leases1, p),
        recs_ids_match(recs) ==> forall|p: int|
            0 <= p < i + 1 ==> leases1.contains_key((#[trigger] recs[p]).0) && leases1[recs[p].0]
                == recovered_lease(spec_decode_pb(recs[p].1@).unwrap()),
{
    let n1 = i + 1;
    assert forall|p: int| 0 <= p < n1 implies #[trigger] rec_recovered(recs, n1, leases1, p) by {
        let x = spec_decode_pb(recs[p].1@).unwrap().id;
        if x == pb.id {
            assert(0 <= i < i + 1 && spec_decode_pb(recs[i].1@).unwrap().id == x
                && leases1.contains_key(x) && leases1[x] == recovered_lease(
                spec_decode_pb(recs[i].1@).unwrap(),
            ));
        } else {
            assert(rec_recovered(recs, i, leases0, p));
            let q = choose|q: int|
                {
                    &&& 0 <= q < i
                    &&& spec_decode_pb(#[trigger] recs[q].1@).unwrap().id == spec_decode_pb(
                        recs[p].1@,
                    ).unwrap().id
                    &&& leases0.contains_key(x)
                    &&& leases0[x] == recovered_lease(spec_decode_pb(recs[q].1@).unwrap())
                };
            assert(leases1[x] == leases0[x]);
            assert(0 <= q < i + 1 && spec_decode_pb(recs[q].1@).unwrap().id == x
                && leases1.contains_key(x) && leases1[x] == recovered_lease(
                spec_decode_pb(recs[q].1@).unwrap(),
            ));
        }
    }
    if recs_ids_match(recs) {
        assert(pb.id == recs[i].0);
        assert forall|p: int| 0 <= p < i + 1 implies leases1.contains_key(
            (#[trigger] recs[p]).0,
        ) && leases1[recs[p].0] == recovered_lease(spec_decode_pb(recs[p].1@).unwrap()) by {
            if p < i {
                assert(recs[p].0 != recs[i].0);
            }
        }
    }
}

/// Translates the record-indexed facts a recovery pass accumulates into the
/// table-indexed facts its contract states: every stored id decodes with a
/// non-zero id, every decoded id is live holding a recovered record, every
/// fresh lease traces to a stored record, and, where records carry their
/// stored ids, the rebuilt map is exact per stored id.
proof fn lemma_recover_translate(
    tbl: Map<i64, Seq<u8>>,
    recs: Seq<(i64, Vec<u8>)>,
    leases0: Map<i64, LeaseData>,
    leases1: Map<i64, LeaseData>,
)
    requires
        forall|p: int|
            0 <= p < recs.len() ==> tbl.contains_key(#[trigger] recs[p].0) && tbl[recs[p].0]
                == recs[p].1@,
        forall|id: i64| #[trigger] tbl.contains_key(id) ==> exists|p: int|
            0 <= p < recs.len() && recs[p].0 == id,
        forall|p: int|
            0 <= p < recs.len() ==> spec_decode_pb(#[trigger] recs[p].1@) is Some
                && spec_decode_pb(recs[p].1@).unwrap().id != 0,
        forall|p: int|
            0 <= p < recs.len() ==> #[trigger] rec_recovered(recs, recs.len() as int, leases1, p),
        forall|x: i64| #[trigger] leases1.contains_key(x) ==> leases0.contains_key(x) || (exists|
            p: int|
            0 <= p < recs.len() && spec_decode_pb((#[trigger] recs[p]).1@).unwrap().id == x),
        recs_ids_match(recs) ==> forall|p: int|
            0 <= p < recs.len() ==> leases1.contains_key((#[trigger] recs[p]).0)
                && leases1[recs[p].0] == recovered_lease(spec_decode_pb(recs[p].1@).unwrap()),
    ensures
        forall|id: i64| #[trigger] tbl.contains_key(id) ==> spec_decode_pb(tbl[id]) is Some
            && spec_decode_pb(tbl[id]).unwrap().id != 0,
        forall|id: i64| #[trigger] tbl.contains_key(id) ==> {
            let x = spec_decode_pb(tbl[id]).unwrap().id;
            leases1.contains_key(x) && recovered_from_table(tbl, leases1, x)
        },
        forall|x: i64| #[trigger] leases1.contains_key(x) ==> leases0.contains_key(x) || (exists|
            id: i64|
            #[trigger] tbl.contains_key(id) && spec_decode_pb(tbl[id]).unwrap().id == x),
        (forall|id: i64| #[trigger] tbl.contains_key(id) ==> spec_decode_pb(tbl[id]).unwrap().id
            == id) ==> forall|id: i64| #[trigger] tbl.contains_key(id) ==> leases1.contains_key(id)
            && leases1[id] == recovered_lease(spec_decode_pb(tbl[id]).unwrap()),
{
    assert forall|id: i64| #[trigger] tbl.contains_key(id) implies spec_decode_pb(tbl[id]) is Some
        && spec_decode_pb(tbl[id]).unwrap().id != 0 by {
        let p = choose|p: int| 0 <= p < recs.len() && recs[p].0 == id;
        assert(spec_decode_pb(recs[p].1@) is Some);
    }
    assert forall|id: i64| #[trigger] tbl.contains_key(id) implies {
        let x = spec_decode_pb(tbl[id]).unwrap().id;
        leases1.contains_key(x) && recovered_from_table(tbl, leases1, x)
    } by {
        let p = choose|p: int| 0 <= p < recs.len() && recs[p].0 == id;
        let x = spec_decode_pb(recs[p].1@).unwrap().id;
        assert(rec_recovered(recs, recs.len() as int, leases1, p));
        let q = choose|q: int|
            {
                &&& 0 <= q < recs.len()
                &&& spec_decode_pb(#[trigger] recs[q].1@).unwrap().id == spec_decode_pb(
                    recs[p].1@,
                ).unwrap().id
                &&& leases1.contains_key(spec_decode_pb(recs[p].1@).unwrap().id)
                &&& leases1[spec_decode_pb(recs[p].1@).unwrap().id] == recovered_lease(
                    spec_decode_pb(recs[q].1@).unwrap(),
                )
            };
        let id2 = recs[q].0;
        assert(tbl.contains_key(id2) && spec_decode_pb(tbl[id2]).unwrap().id == x && leases1[x]
            == recovered_lease(spec_decode_pb(tbl[id2]).unwrap()));
    }
    assert forall|x: i64| #[trigger] leases1.contains_key(x) && !leases0.contains_key(x)
        implies exists|id: i64|
        #[trigger] tbl.contains_key(id) && spec_decode_pb(tbl[id]).unwrap().id == x by {
        let p = choose|p: int|
            0 <= p < recs.len() && spec_decode_pb((#[trigger] recs[p]).1@).unwrap().id == x;
        assert(tbl.contains_key(recs[p].0) && spec_decode_pb(tbl[recs[p].0]).unwrap().id == x);
    }
    if forall|id: i64| #[trigger] tbl.contains_key(id) ==> spec_decode_pb(tbl[id]).unwrap().id
        == id {
        assert(recs_ids_match(recs)) by {
            assert forall|p: int| 0 <= p < recs.len() implies spec_decode_pb(
                (#[trigger] recs[p]).1@,
            ) is Some && spec_decode_pb(recs[p].1@).unwrap().id == recs[p].0 by {
                assert(tbl.contains_key(recs[p].0));
                assert(tbl[recs[p].0] == recs[p].1@);
            }
        }
        assert forall|id: i64| #[trigger] tbl.contains_key(id) implies leases1.contains_key(id)
            && leases1[id] == recovered_lease(spec_decode_pb(tbl[id]).unwrap()) by {
            let p = choose|p: int| 0 <= p < recs.len() && recs[p].0 == id;
        }
    }
}

} // verus!
