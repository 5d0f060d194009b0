//! The persistent backend, as this subsystem uses it: a lease table keyed
//! by lease id, a key-value table keyed by revision, and a write buffer
//! keyed by proposal id that `flush` applies to the tables in order.

use vstd::prelude::*;

use crate::codec::{encode_pb, spec_encode_pb};
use crate::error::ExecuteError;
use crate::index::Revision;
use crate::lease_collection::clone_bytes;
use crate::pb::PbLease;
use crate::rpc::{KeyValue, KeyValueData};

verus! {

/// Mathematical model of a buffered write.
pub enum WriteOpData {
    PutLease(PbLease),
    DeleteLease(i64),
    PutKeyValue(Revision, KeyValueData),
}

/// A buffered write: a lease record to store, a lease record to drop, or a
/// key-value record to store under a revision.
#[derive(Debug)]
pub enum WriteOp {
    PutLease(PbLease),
    DeleteLease(i64),
    PutKeyValue(Revision, KeyValue),
}

impl View for WriteOp {
    type V = WriteOpData;

    open spec fn view(&self) -> WriteOpData {
        match self {
            WriteOp::PutLease(pb) => WriteOpData::PutLease(*pb),
            WriteOp::DeleteLease(id) => WriteOpData::DeleteLease(*id),
            WriteOp::PutKeyValue(rev, kv) => WriteOpData::PutKeyValue(*rev, kv@),
        }
    }
}

/// The two tables of the backend.
#[verifier::ext_equal]
pub struct DbTables {
    /// Lease id to encoded lease record.
    pub lease_tbl: Map<i64, Seq<u8>>,
    /// Revision to key-value record.
    pub kv_tbl: Map<Revision, KeyValueData>,
}

/// Mathematical model of the backend.
#[verifier::ext_equal]
pub struct DbView {
    pub tables: DbTables,
    /// Buffered writes, in order, each under its proposal id.
    pub buffer: Seq<(u64, WriteOpData)>,
}

/// One buffered write applied to the tables.
pub open spec fn apply_one(t: DbTables, op: WriteOpData) -> DbTables {
    match op {
        WriteOpData::PutLease(pb) => DbTables {
            lease_tbl: t.lease_tbl.insert(pb.id, spec_encode_pb(pb)),
            ..t
        },
        WriteOpData::DeleteLease(id) => DbTables { lease_tbl: t.lease_tbl.remove(id), ..t },
        WriteOpData::PutKeyValue(rev, kv) => DbTables { kv_tbl: t.kv_tbl.insert(rev, kv), ..t },
    }
}

/// A sequence of buffered writes applied to the tables, first to last.
pub open spec fn apply_ops(t: DbTables, ops: Seq<WriteOpData>) -> DbTables
    decreases ops.len(),
{
    if ops.len() == 0 {
        t
    } else {
        apply_one(apply_ops(t, ops.drop_last()), ops.last())
    }
}

/// The writes buffered under proposal `id`, in order.
pub open spec fn ops_for(buf: Seq<(u64, WriteOpData)>, id: u64) -> Seq<WriteOpData>
    decreases buf.len(),
{
    if buf.len() == 0 {
        Seq::empty()
    } else if buf.last().0 == id {
        ops_for(buf.drop_last(), id).push(buf.last().1)
    } else {
        ops_for(buf.drop_last(), id)
    }
}

/// The buffer with the writes of proposal `id` taken out.
pub open spec fn buf_without(buf: Seq<(u64, WriteOpData)>, id: u64) -> Seq<(u64, WriteOpData)>
    decreases buf.len(),
{
    if buf.len() == 0 {
        Seq::empty()
    } else if buf.last().0 == id {
        buf_without(buf.drop_last(), id)
    } else {
        buf_without(buf.drop_last(), id).push(buf.last())
    }
}

/// An in-memory backend.
pub struct MemoryDb {
    lease_table: Vec<(i64, Vec<u8>)>,
    kv_table: Vec<(Revision, KeyValue)>,
    buffer: Vec<(u64, WriteOp)>,
}

impl View for MemoryDb {
    type V = DbView;

    closed spec fn view(&self) -> DbView {
        DbView {
            tables: DbTables {
                lease_tbl: Map::new(
                    |id: i64| lt_present(self.lease_table@, id),
                    |id: i64| lt_value(self.lease_table@, id),
                ),
                kv_tbl: Map::new(
                    |rev: Revision| kt_present(self.kv_table@, rev),
                    |rev: Revision| kt_value(self.kv_table@, rev),
                ),
            },
            buffer: Seq::new(self.buffer@.len(), |i: int| (self.buffer@[i].0, self.buffer@[i].1@)),
        }
    }
}

/// True iff some entry of the lease table carries the id `id`.
pub open spec fn lt_present(s: Seq<(i64, Vec<u8>)>, id: i64) -> bool {
    exists|i: int| 0 <= i < s.len() && s[i].0 == id
}

/// The bytes stored for `id` (meaningful when ids are distinct).
pub open spec fn lt_value(s: Seq<(i64, Vec<u8>)>, id: i64) -> Seq<u8> {
    s[choose|i: int| 0 <= i < s.len() && s[i].0 == id].1@
}

/// True iff some entry of the key-value table carries the revision `rev`.
pub open spec fn kt_present(s: Seq<(Revision, KeyValue)>, rev: Revision) -> bool {
    exists|i: int| 0 <= i < s.len() && s[i].0 == rev
}

/// The record stored for `rev` (meaningful when revisions are distinct).
pub open spec fn kt_value(s: Seq<(Revision, KeyValue)>, rev: Revision) -> KeyValueData {
    s[choose|i: int| 0 <= i < s.len() && s[i].0 == rev].1@
}

proof fn lt_value_at(s: Seq<(i64, Vec<u8>)>, i: int)
    requires
        forall|a: int, b: int| 0 <= a < b < s.len() ==> s[a].0 != s[b].0,
        0 <= i < s.len(),
    ensures
        lt_present(s, s[i].0),
        lt_value(s, s[i].0) == s[i].1@,
{
    let j = choose|j: int| 0 <= j < s.len() && s[j].0 == s[i].0;
    if i != j {
        assert(s[i].0 != s[j].0);
    }
}

proof fn kt_value_at(s: Seq<(Revision, KeyValue)>, i: int)
    requires
        forall|a: int, b: int| 0 <= a < b < s.len() ==> s[a].0 != s[b].0,
        0 <= i < s.len(),
    ensures
        kt_present(s, s[i].0),
        kt_value(s, s[i].0) == s[i].1@,
{
    let j = choose|j: int| 0 <= j < s.len() && s[j].0 == s[i].0;
    if i != j {
        assert(s[i].0 != s[j].0);
    }
}

impl MemoryDb {
    /// Ids and revisions appear at most once in their tables.
    pub closed spec fn wf(&self) -> bool {
        &&& forall|a: int, b: int|
            0 <= a < b < self.lease_table@.len() ==> self.lease_table@[a].0
                != self.lease_table@[b].0
        &&& forall|a: int, b: int|
            0 <= a < b < self.kv_table@.len() ==> self.kv_table@[a].0 != self.kv_table@[b].0
    }

    /// An empty backend.
    pub fn new() -> (r: MemoryDb)
        ensures
            r.wf(),
            r@.tables.lease_tbl == Map::<i64, Seq<u8>>::empty(),
            r@.tables.kv_tbl == Map::<Revision, KeyValueData>::empty(),
            r@.buffer == Seq::<(u64, WriteOpData)>::empty(),
    {
        let r = MemoryDb { lease_table: Vec::new(), kv_table: Vec::new(), buffer: Vec::new() };
        proof {
            assert(r@.tables.lease_tbl =~= Map::<i64, Seq<u8>>::empty());
            assert(r@.tables.kv_tbl =~= Map::<Revision, KeyValueData>::empty());
            assert(r@.buffer =~= Seq::<(u64, WriteOpData)>::empty());
        }
        r
    }

    /// Append a write to the buffer under proposal `id`; the tables are
    /// untouched until that proposal is flushed.
    pub fn buffer_op(&mut self, id: u64, op: WriteOp)
        requires
            old(self).wf(),
        ensures
            final(self).wf(),
            final(self)@ == (DbView {
                buffer: old(self)@.buffer.push((id, op@)),
                ..old(self)@
            }),
    {
        let ghost opv = op@;
        self.buffer.push((id, op));
        proof {
            assert(self@.buffer =~= old(self)@.buffer.push((id, opv)));
            assert(self@ =~= (DbView { buffer: old(self)@.buffer.push((id, opv)), ..old(self)@ }));
        }
    }

    /// Store `bytes` under lease id `lid`, replacing any earlier record.
    #[verifier::loop_isolation(false)]
    fn lt_put(&mut self, lid: i64, bytes: Vec<u8>)
        requires
            old(self).wf(),
        ensures
            final(self).wf(),
            final(self)@ == (DbView {
                tables: DbTables {
                    lease_tbl: old(self)@.tables.lease_tbl.insert(lid, bytes@),
                    ..old(self)@.tables
                },
                ..old(self)@
            }),
    {
        let mut i: usize = 0;
        while i < self.lease_table.len()
            invariant
                self == old(self),
                0 <= i <= self.lease_table@.len(),
                forall|j: int| 0 <= j < i ==> self.lease_table@[j].0 != lid,
            decreases self.lease_table@.len() - i,
        {
            if self.lease_table[i].0 == lid {
                let ghost s1 = self.lease_table@;
                let entry = self.lease_table.remove(i);
                self.lease_table.insert(i, (lid, bytes));
                proof {
                    assert(self.lease_table@ =~= s1.update(i as int, (lid, self.lease_table@[i as int].1)));
                    lt_map_update(s1, self.lease_table@, i as int, lid);
                }
                return ;
            }
            i = i + 1;
        }
        let ghost s1 = self.lease_table@;
        self.lease_table.push((lid, bytes));
        proof {
            lt_map_push(s1, self.lease_table@, lid);
        }
    }

    /// Drop the record under lease id `lid`, if any.
    #[verifier::loop_isolation(false)]
    fn lt_del(&mut self, lid: i64)
        requires
            old(self).wf(),
        ensures
            final(self).wf(),
            final(self)@ == (DbView {
                tables: DbTables {
                    lease_tbl: old(self)@.tables.lease_tbl.remove(lid),
                    ..old(self)@.tables
                },
                ..old(self)@
            }),
    {
        let mut i: usize = 0;
        while i < self.lease_table.len()
            invariant
                self == old(self),
                0 <= i <= self.lease_table@.len(),
                forall|j: int| 0 <= j < i ==> self.lease_table@[j].0 != lid,
            decreases self.lease_table@.len() - i,
        {
            if self.lease_table[i].0 == lid {
                let ghost s1 = self.lease_table@;
                self.lease_table.remove(i);
                proof {
                    lt_map_remove(s1, self.lease_table@, i as int);
                }
                return ;
            }
            i = i + 1;
        }
        proof {
            assert(!lt_present(self.lease_table@, lid));
            assert(self@.tables.lease_tbl =~= old(self)@.tables.lease_tbl.remove(lid));
            assert(self@ =~= (DbView {
                tables: DbTables {
                    lease_tbl: old(self)@.tables.lease_tbl.remove(lid),
                    ..old(self)@.tables
                },
                ..old(self)@
            }));
        }
    }

    /// Store `kv` under `rev`, replacing any earlier record.
    #[verifier::loop_isolation(false)]
    fn kt_put(&mut self, rev: Revision, kv: KeyValue)
        requires
            old(self).wf(),
        ensures
            final(self).wf(),
            final(self)@ == (DbView {
                tables: DbTables {
                    kv_tbl: old(self)@.tables.kv_tbl.insert(rev, kv@),
                    ..old(self)@.tables
                },
                ..old(self)@
            }),
    {
        let ghost kvv = kv@;
        let mut i: usize = 0;
        while i < self.kv_table.len()
            invariant
                self == old(self),
                0 <= i <= self.kv_table@.len(),
                forall|j: int| 0 <= j < i ==> self.kv_table@[j].0 != rev,
            decreases self.kv_table@.len() - i,
        {
            if self.kv_table[i].0 == rev {
                let ghost s1 = self.kv_table@;
                let entry = self.kv_table.remove(i);
                self.kv_table.insert(i, (rev, kv));
                proof {
                    assert(self.kv_table@ =~= s1.update(i as int, (rev, self.kv_table@[i as int].1)));
                    kt_map_update(s1, self.kv_table@, i as int, rev);
                }
                return ;
            }
            i = i + 1;
        }
        let ghost s1 = self.kv_table@;
        self.kv_table.push((rev, kv));
        proof {
            kt_map_push(s1, self.kv_table@, rev);
        }
    }

    /// Apply every write buffered under proposal `id` to the tables, in
    /// order, and drop them from the buffer. The in-memory backend cannot
    /// fail.
    #[verifier::loop_isolation(false)]
    pub fn flush(&mut self, id: u64) -> (r: Result<(), ExecuteError>)
        requires
            old(self).wf(),
        ensures
            final(self).wf(),
            r is Ok,
            final(self)@.tables == apply_ops(old(self)@.tables, ops_for(old(self)@.buffer, id)),
            final(self)@.buffer == buf_without(old(self)@.buffer, id),
    {
        let ghost b0 = old(self)@.buffer;
        let ghost t0 = old(self)@.tables;
        let mut i: usize = 0;
        let ghost j: int = 0;
        proof {
            assert(b0.take(0int) =~= Seq::<(u64, WriteOpData)>::empty());
            assert(self@.buffer =~= buf_without(b0.take(0int), id) + b0.skip(0int));
        }
        while i < self.buffer.len()
            invariant
                self.wf(),
                0 <= j <= b0.len(),
                i == buf_without(b0.take(j), id).len(),
                self@.buffer == buf_without(b0.take(j), id) + b0.skip(j),
                self@.tables == apply_ops(t0, ops_for(b0.take(j), id)),
                i <= self.buffer@.len(),
            decreases b0.len() - j,
        {
            proof {
                assert(b0.skip(j).len() > 0);
                assert(self@.buffer[i as int] == b0.skip(j)[0]);
                assert(b0.skip(j)[0] == b0[j]);
                assert(b0.take(j + 1).drop_last() =~= b0.take(j));
                assert(b0.take(j + 1).last() == b0[j]);
            }
            if self.buffer[i].0 == id {
                let ghost bprior = self@.buffer;
                let ghost cprior = self.buffer@;
                let entry = self.buffer.remove(i);
                let ghost bpre = self@.buffer;
                proof {
                    assert(entry.1@ == b0[j].1);
                    assert(self.buffer@ == cprior.remove(i as int));
                    assert(bpre =~= buf_without(b0.take(j), id) + b0.skip(j + 1)) by {
                        assert forall|k: int| 0 <= k < bpre.len() implies bpre[k] == (buf_without(
                            b0.take(j),
                            id,
                        ) + b0.skip(j + 1))[k] by {
                            if k < i {
                                assert(bpre[k] == (cprior[k].0, cprior[k].1@));
                                assert(bprior[k] == (cprior[k].0, cprior[k].1@));
                            } else {
                                assert(bpre[k] == (cprior[k + 1].0, cprior[k + 1].1@));
                                assert(bprior[k + 1] == (cprior[k + 1].0, cprior[k + 1].1@));
                                assert(bpre[k] == bprior[k + 1]);
                                assert(bprior[k + 1] == (buf_without(b0.take(j), id) + b0.skip(j))[k
                                    + 1]);
                            }
                        }
                    }
                }
                match entry.1 {
                    WriteOp::PutLease(pb) => {
                        let bytes = encode_pb(&pb);
                        self.lt_put(pb.id, bytes);
                    },
                    WriteOp::DeleteLease(lid) => {
                        self.lt_del(lid);
                    },
                    WriteOp::PutKeyValue(rev, kv) => {
                        self.kt_put(rev, kv);
                    },
                }
                proof {
                    assert(ops_for(b0.take(j + 1), id) =~= ops_for(b0.take(j), id).push(b0[j].1));
                    assert(ops_for(b0.take(j), id).push(b0[j].1).drop_last() =~= ops_for(
                        b0.take(j),
                        id,
                    ));
                    assert(self@.tables =~= apply_ops(t0, ops_for(b0.take(j + 1), id)));
                    assert(buf_without(b0.take(j + 1), id) =~= buf_without(b0.take(j), id));
                    assert(self@.buffer == bpre);
                    assert(self@.buffer =~= buf_without(b0.take(j + 1), id) + b0.skip(j + 1));
                }
                proof {
                    j = j + 1;
                }
            } else {
                proof {
                    assert(buf_without(b0.take(j + 1), id) =~= buf_without(b0.take(j), id).push(
                        b0[j],
                    ));
                    assert(ops_for(b0.take(j + 1), id) =~= ops_for(b0.take(j), id));
                    assert(self@.buffer =~= buf_without(b0.take(j + 1), id) + b0.skip(j + 1));
                }
                i = i + 1;
                proof {
                    j = j + 1;
                }
            }
        }
        proof {
            assert(b0.skip(j).len() == self@.buffer.len() - i);
            assert(j == b0.len());
            assert(b0.take(b0.len() as int) =~= b0);
            assert(self@.buffer =~= buf_without(b0, id));
        }
        Ok(())
    }

    /// The record stored under `rev`, if any.
    #[verifier::loop_isolation(false)]
    pub fn get_value(&self, rev: Revision) -> (r: Option<KeyValue>)
        requires
            self.wf(),
        ensures
            match r {
                Some(kv) => self@.tables.kv_tbl.contains_key(rev) && kv@ == self@.tables.kv_tbl[rev],
                None => !self@.tables.kv_tbl.contains_key(rev),
            },
    {
        let mut i: usize = 0;
        while i < self.kv_table.len()
            invariant
                0 <= i <= self.kv_table@.len(),
                forall|j: int| 0 <= j < i ==> self.kv_table@[j].0 != rev,
            decreases self.kv_table@.len() - i,
        {
            if self.kv_table[i].0 == rev {
                proof {
                    kt_value_at(self.kv_table@, i as int);
                }
                return Some(self.kv_table[i].1.duplicate());
            }
            i = i + 1;
        }
        proof {
            assert(!kt_present(self.kv_table@, rev));
        }
        None
    }

    /// Every stored lease record, as `(id, bytes)` pairs, each id once.
    #[verifier::loop_isolation(false)]
    pub fn get_all_leases(&self) -> (r: Vec<(i64, Vec<u8>)>)
        requires
            self.wf(),
        ensures
            forall|p: int|
                0 <= p < r@.len() ==> self@.tables.lease_tbl.contains_key(#[trigger] r@[p].0)
                    && self@.tables.lease_tbl[r@[p].0] == r@[p].1@,
            forall|id: i64| #[trigger] self@.tables.lease_tbl.contains_key(id) ==> exists|p: int|
                0 <= p < r@.len() && r@[p].0 == id,
            forall|p: int, q: int| 0 <= p < q < r@.len() ==> r@[p].0 != r@[q].0,
    {
        let mut out: Vec<(i64, Vec<u8>)> = Vec::new();
        let mut i: usize = 0;
        while i < self.lease_table.len()
            invariant
                self.wf(),
                0 <= i <= self.lease_table@.len(),
                out@.len() == i,
                forall|p: int| 0 <= p < i ==> out@[p].0 == #[trigger] self.lease_table@[p].0
                    && out@[p].1@ == self.lease_table@[p].1@,
            decreases self.lease_table@.len() - i,
        {
            let id = self.lease_table[i].0;
            let bytes = clone_bytes(&self.lease_table[i].1);
            out.push((id, bytes));
            i = i + 1;
        }
        proof {
            assert forall|p: int| 0 <= p < out@.len() implies self@.tables.lease_tbl.contains_key(
                #[trigger] out@[p].0,
            ) && self@.tables.lease_tbl[out@[p].0] == out@[p].1@ by {
                lt_value_at(self.lease_table@, p);
            }
            assert forall|id: i64| #[trigger] self@.tables.lease_tbl.contains_key(id)
                implies exists|p: int| 0 <= p < out@.len() && out@[p].0 == id by {
                let w = choose|w: int|
                    0 <= w < self.lease_table@.len() && self.lease_table@[w].0 == id;
                assert(out@[w].0 == id);
            }
            assert forall|p: int, q: int| 0 <= p < q < out@.len() implies out@[p].0
                != out@[q].0 by {
                assert(out@[p].0 == self.lease_table@[p].0);
                assert(out@[q].0 == self.lease_table@[q].0);
            }
        }
        out
    }

    /// Drop everything: tables and buffer.
    pub fn reset(&mut self) -> (r: Result<(), ExecuteError>)
        ensures
            final(self).wf(),
            r is Ok,
            final(self)@.tables.lease_tbl == Map::<i64, Seq<u8>>::empty(),
            final(self)@.tables.kv_tbl == Map::<Revision, KeyValueData>::empty(),
            final(self)@.buffer == Seq::<(u64, WriteOpData)>::empty(),
    {
        self.lease_table = Vec::new();
        self.kv_table = Vec::new();
        self.buffer = Vec::new();
        proof {
            assert(self@.tables.lease_tbl =~= Map::<i64, Seq<u8>>::empty());
            assert(self@.tables.kv_tbl =~= Map::<Revision, KeyValueData>::empty());
            assert(self@.buffer =~= Seq::<(u64, WriteOpData)>::empty());
        }
        Ok(())
    }
}

proof fn lt_map_update(s1: Seq<(i64, Vec<u8>)>, s2: Seq<(i64, Vec<u8>)>, i: int, lid: i64)
    requires
        forall|a: int, b: int| 0 <= a < b < s1.len() ==> s1[a].0 != s1[b].0,
        0 <= i < s1.len(),
        s1[i].0 == lid,
        s2.len() == s1.len(),
        s2[i].0 == lid,
        forall|a: int| 0 <= a < s1.len() && a != i ==> s2[a] == s1[a],
    ensures
        forall|a: int, b: int| 0 <= a < b < s2.len() ==> s2[a].0 != s2[b].0,
        Map::new(|id: i64| lt_present(s2, id), |id: i64| lt_value(s2, id)) == Map::new(
            |id: i64| lt_present(s1, id),
            |id: i64| lt_value(s1, id),
        ).insert(lid, s2[i].1@),
{
    let m2 = Map::new(|id: i64| lt_present(s2, id), |id: i64| lt_value(s2, id));
    let m1 = Map::new(|id: i64| lt_present(s1, id), |id: i64| lt_value(s1, id));
    assert forall|a: int, b: int| 0 <= a < b < s2.len() implies s2[a].0 != s2[b].0 by {
        assert(s2[a].0 == s1[a].0 && s2[b].0 == s1[b].0);
    }
    assert forall|id: i64| #[trigger] lt_present(s2, id) implies m1.insert(
        lid,
        s2[i].1@,
    ).contains_key(id) by {
        let w = choose|w: int| 0 <= w < s2.len() && s2[w].0 == id;
        if w != i {
            assert(s1[w].0 == id);
        }
    }
    assert forall|id: i64| m1.insert(lid, s2[i].1@).contains_key(id) implies #[trigger] lt_present(
        s2,
        id,
    ) by {
        if id == lid {
            assert(s2[i].0 == id);
        } else {
            let w = choose|w: int| 0 <= w < s1.len() && s1[w].0 == id;
            assert(s2[w].0 == id);
        }
    }
    assert forall|id: i64| #[trigger] m2.contains_key(id) implies m2[id] == m1.insert(
        lid,
        s2[i].1@,
    )[id] by {
        let w = choose|w: int| 0 <= w < s2.len() && s2[w].0 == id;
        lt_value_at(s2, w);
        if id != lid {
            assert(s1[w].0 == id);
            lt_value_at(s1, w);
        } else {
            if w != i {
                assert(s2[w].0 == s2[i].0);
            }
        }
    }
    assert(m2 =~= m1.insert(lid, s2[i].1@));
}

proof fn lt_map_push(s1: Seq<(i64, Vec<u8>)>, s2: Seq<(i64, Vec<u8>)>, lid: i64)
    requires
        forall|a: int, b: int| 0 <= a < b < s1.len() ==> s1[a].0 != s1[b].0,
        !lt_present(s1, lid),
        s2 == s1.push((s2[s1.len() as int].0, s2[s1.len() as int].1)),
        s2[s1.len() as int].0 == lid,
    ensures
        forall|a: int, b: int| 0 <= a < b < s2.len() ==> s2[a].0 != s2[b].0,
        Map::new(|id: i64| lt_present(s2, id), |id: i64| lt_value(s2, id)) == Map::new(
            |id: i64| lt_present(s1, id),
            |id: i64| lt_value(s1, id),
        ).insert(lid, s2[s1.len() as int].1@),
{
    let n = s1.len() as int;
    let m2 = Map::new(|id: i64| lt_present(s2, id), |id: i64| lt_value(s2, id));
    let m1 = Map::new(|id: i64| lt_present(s1, id), |id: i64| lt_value(s1, id));
    assert forall|a: int, b: int| 0 <= a < b < s2.len() implies s2[a].0 != s2[b].0 by {
        if b < n {
            assert(s2[a] == s1[a] && s2[b] == s1[b]);
        } else {
            if s2[a].0 == lid {
                assert(s1[a].0 == lid);
            }
        }
    }
    assert forall|id: i64| #[trigger] lt_present(s2, id) implies m1.insert(
        lid,
        s2[n].1@,
    ).contains_key(id) by {
        let w = choose|w: int| 0 <= w < s2.len() && s2[w].0 == id;
        if w < n {
            assert(s1[w].0 == id);
        }
    }
    assert forall|id: i64| m1.insert(lid, s2[n].1@).contains_key(id) implies #[trigger] lt_present(
        s2,
        id,
    ) by {
        if id != lid {
            let w = choose|w: int| 0 <= w < s1.len() && s1[w].0 == id;
            assert(s2[w].0 == id);
        }
    }
    assert forall|id: i64| #[trigger] m2.contains_key(id) implies m2[id] == m1.insert(
        lid,
        s2[n].1@,
    )[id] by {
        let w = choose|w: int| 0 <= w < s2.len() && s2[w].0 == id;
        lt_value_at(s2, w);
        if id != lid {
            assert(w < n);
            assert(s1[w].0 == id);
            lt_value_at(s1, w);
        } else {
            if w < n {
                assert(lt_present(s1, lid));
            }
        }
    }
    assert(m2 =~= m1.insert(lid, s2[n].1@));
}

proof fn lt_map_remove(s1: Seq<(i64, Vec<u8>)>, s2: Seq<(i64, Vec<u8>)>, i: int)
    requires
        forall|a: int, b: int| 0 <= a < b < s1.len() ==> s1[a].0 != s1[b].0,
        0 <= i < s1.len(),
        s2 == s1.remove(i),
    ensures
        forall|a: int, b: int| 0 <= a < b < s2.len() ==> s2[a].0 != s2[b].0,
        Map::new(|id: i64| lt_present(s2, id), |id: i64| lt_value(s2, id)) == Map::new(
            |id: i64| lt_present(s1, id),
            |id: i64| lt_value(s1, id),
        ).remove(s1[i].0),
{
    let lid = s1[i].0;
    let m2 = Map::new(|id: i64| lt_present(s2, id), |id: i64| lt_value(s2, id));
    let m1 = Map::new(|id: i64| lt_present(s1, id), |id: i64| lt_value(s1, id));
    assert forall|id: i64| #[trigger] lt_present(s2, id) implies m1.remove(lid).contains_key(id) by {
        let w = choose|w: int| 0 <= w < s2.len() && s2[w].0 == id;
        if w < i {
            assert(s1[w].0 == id);
            assert(id != lid);
        } else {
            assert(s1[w + 1].0 == id);
            assert(id != lid);
        }
    }
    assert forall|id: i64| m1.remove(lid).contains_key(id) implies #[trigger] lt_present(s2, id) by {
        let w = choose|w: int| 0 <= w < s1.len() && s1[w].0 == id;
        if w < i {
            assert(s2[w].0 == id);
        } else {
            assert(w != i);
            assert(s2[w - 1].0 == id);
        }
    }
    assert forall|id: i64| #[trigger] m2.contains_key(id) implies m2[id] == m1.remove(lid)[id] by {
        let w = choose|w: int| 0 <= w < s2.len() && s2[w].0 == id;
        lt_value_at(s2, w);
        if w < i {
            lt_value_at(s1, w);
        } else {
            lt_value_at(s1, w + 1);
        }
    }
    assert(m2 =~= m1.remove(lid));
}

proof fn kt_map_update(s1: Seq<(Revision, KeyValue)>, s2: Seq<(Revision, KeyValue)>, i: int, rev: Revision)
    requires
        forall|a: int, b: int| 0 <= a < b < s1.len() ==> s1[a].0 != s1[b].0,
        0 <= i < s1.len(),
        s1[i].0 == rev,
        s2.len() == s1.len(),
        s2[i].0 == rev,
        forall|a: int| 0 <= a < s1.len() && a != i ==> s2[a] == s1[a],
    ensures
        forall|a: int, b: int| 0 <= a < b < s2.len() ==> s2[a].0 != s2[b].0,
        Map::new(|r: Revision| kt_present(s2, r), |r: Revision| kt_value(s2, r)) == Map::new(
            |r: Revision| kt_present(s1, r),
            |r: Revision| kt_value(s1, r),
        ).insert(rev, s2[i].1@),
{
    let m2 = Map::new(|r: Revision| kt_present(s2, r), |r: Revision| kt_value(s2, r));
    let m1 = Map::new(|r: Revision| kt_present(s1, r), |r: Revision| kt_value(s1, r));
    assert forall|a: int, b: int| 0 <= a < b < s2.len() implies s2[a].0 != s2[b].0 by {
        assert(s2[a].0 == s1[a].0 && s2[b].0 == s1[b].0);
    }
    assert forall|r: Revision| #[trigger] kt_present(s2, r) implies m1.insert(
        rev,
        s2[i].1@,
    ).contains_key(r) by {
        let w = choose|w: int| 0 <= w < s2.len() && s2[w].0 == r;
        if w != i {
            assert(s1[w].0 == r);
        }
    }
    assert forall|r: Revision| m1.insert(rev, s2[i].1@).contains_key(r)
        implies #[trigger] kt_present(s2, r) by {
        if r == rev {
            assert(s2[i].0 == r);
        } else {
            let w = choose|w: int| 0 <= w < s1.len() && s1[w].0 == r;
            assert(s2[w].0 == r);
        }
    }
    assert forall|r: Revision| #[trigger] m2.contains_key(r) implies m2[r] == m1.insert(
        rev,
        s2[i].1@,
    )[r] by {
        let w = choose|w: int| 0 <= w < s2.len() && s2[w].0 == r;
        kt_value_at(s2, w);
        if r != rev {
            assert(s1[w].0 == r);
            kt_value_at(s1, w);
        } else {
            if w != i {
                assert(s2[w].0 == s2[i].0);
            }
        }
    }
    assert(m2 =~= m1.insert(rev, s2[i].1@));
}

proof fn kt_map_push(s1: Seq<(Revision, KeyValue)>, s2: Seq<(Revision, KeyValue)>, rev: Revision)
    requires
        forall|a: int, b: int| 0 <= a < b < s1.len() ==> s1[a].0 != s1[b].0,
        !kt_present(s1, rev),
        s2 == s1.push((s2[s1.len() as int].0, s2[s1.len() as int].1)),
        s2[s1.len() as int].0 == rev,
    ensures
        forall|a: int, b: int| 0 <= a < b < s2.len() ==> s2[a].0 != s2[b].0,
        Map::new(|r: Revision| kt_present(s2, r), |r: Revision| kt_value(s2, r)) == Map::new(
            |r: Revision| kt_present(s1, r),
            |r: Revision| kt_value(s1, r),
        ).insert(rev, s2[s1.len() as int].1@),
{
    let n = s1.len() as int;
    let m2 = Map::new(|r: Revision| kt_present(s2, r), |r: Revision| kt_value(s2, r));
    let m1 = Map::new(|r: Revision| kt_present(s1, r), |r: Revision| kt_value(s1, r));
    assert forall|a: int, b: int| 0 <= a < b < s2.len() implies s2[a].0 != s2[b].0 by {
        if b < n {
            assert(s2[a] == s1[a] && s2[b] == s1[b]);
        } else {
            if s2[a].0 == rev {
                assert(s1[a].0 == rev);
            }
        }
    }
    assert forall|r: Revision| #[trigger] kt_present(s2, r) implies m1.insert(
        rev,
        s2[n].1@,
    ).contains_key(r) by {
        let w = choose|w: int| 0 <= w < s2.len() && s2[w].0 == r;
        if w < n {
            assert(s1[w].0 == r);
        }
    }
    assert forall|r: Revision| m1.insert(rev, s2[n].1@).contains_key(r)
        implies #[trigger] kt_present(s2, r) by {
        if r != rev {
            let w = choose|w: int| 0 <= w < s1.len() && s1[w].0 == r;
            assert(s2[w].0 == r);
        }
    }
    assert forall|r: Revision| #[trigger] m2.contains_key(r) implies m2[r] == m1.insert(
        rev,
        s2[n].1@,
    )[r] by {
        let w = choose|w: int| 0 <= w < s2.len() && s2[w].0 == r;
        kt_value_at(s2, w);
        if r != rev {
            assert(w < n);
            assert(s1[w].0 == r);
            kt_value_at(s1, w);
        } else {
            if w < n {
                assert(kt_present(s1, rev));
            }
        }
    }
    assert(m2 =~= m1.insert(rev, s2[n].1@));
}

} // verus!
