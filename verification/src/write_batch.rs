//! Write batches: operations assembled first and committed as one
//! atomic unit, either against a single table (the batch carries the
//! table id) or across tables (each call names its table). TTL batch
//! writes frame their values like TTL table writes do.

use vstd::prelude::*;

use crate::codec::{
    build_inner_key, build_timestamped_value, spec_inner_key, spec_timestamped_value,
    spec_u32_to_be, u32_to_u8a4,
};
use crate::error::Error;
use crate::entries::kget;
use crate::store::{batch_matches, lookup_after, Store};
use crate::types::TableId;
use crate::write_op::{DeleteOp, DeleteRangeOp, PutOp, WriteOp};

verus! {

/// Whether `op` writes `v` under `k`.
pub open spec fn op_is_put(op: WriteOp, k: Seq<u8>, v: Seq<u8>) -> bool {
    op matches WriteOp::PutOp(p) && p.inner_key@ == k && p.inner_value@ == v
}

/// Whether `op` writes some value of `v` framed by four timestamp bytes
/// under `k`.
pub open spec fn op_is_timestamped_put(op: WriteOp, k: Seq<u8>, v: Seq<u8>) -> bool {
    op matches WriteOp::PutOp(p) && p.inner_key@ == k && p.inner_value@.len() == 4 + v.len()
        && p.inner_value@.subrange(4, p.inner_value@.len() as int) == v
}

/// Whether `op` deletes `k`.
pub open spec fn op_is_delete(op: WriteOp, k: Seq<u8>) -> bool {
    op matches WriteOp::DeleteOp(d) && d.inner_key@ == k
}

/// Whether `op` deletes the key range `[b, e)`.
pub open spec fn op_is_delete_range(op: WriteOp, b: Seq<u8>, e: Seq<u8>) -> bool {
    op matches WriteOp::DeleteRangeOp(r) && r.begin_inner_key@ == b && r.end_inner_key@ == e
}

/// A batch of operations against one table of a plain store.
pub struct NormalWriteBatch {
    pub ops: Vec<WriteOp>,
    pub table_id: TableId,
}

impl NormalWriteBatch {
    pub fn table_id(&self) -> (r: TableId)
        ensures
            r == self.table_id,
    {
        self.table_id
    }

    /// Adds a write of `value` under `key`.
    pub fn put(&mut self, key: &[u8], value: &[u8])
        ensures
            final(self).table_id == old(self).table_id,
            final(self).ops@ == old(self).ops@.push(final(self).ops@.last()),
            op_is_put(
                final(self).ops@.last(),
                spec_inner_key(old(self).table_id@, key@),
                value@,
            ),
    {
        let op = WriteOp::PutOp(
            PutOp {
                inner_key: build_inner_key(self.table_id, key),
                inner_value: vstd::slice::slice_to_vec(value),
            },
        );
        self.ops.push(op);
    }

    /// Adds a delete of `key`.
    pub fn delete(&mut self, key: &[u8])
        ensures
            final(self).table_id == old(self).table_id,
            final(self).ops@ == old(self).ops@.push(final(self).ops@.last()),
            op_is_delete(final(self).ops@.last(), spec_inner_key(old(self).table_id@, key@)),
    {
        let op = WriteOp::DeleteOp(DeleteOp { inner_key: build_inner_key(self.table_id, key) });
        self.ops.push(op);
    }

    /// Adds a delete of the key range `[from_key, to_key)`.
    pub fn delete_range(&mut self, from_key: &[u8], to_key: &[u8])
        ensures
            final(self).table_id == old(self).table_id,
            final(self).ops@ == old(self).ops@.push(final(self).ops@.last()),
            op_is_delete_range(
                final(self).ops@.last(),
                spec_inner_key(old(self).table_id@, from_key@),
                spec_inner_key(old(self).table_id@, to_key@),
            ),
    {
        let op = WriteOp::DeleteRangeOp(
            DeleteRangeOp {
                begin_inner_key: build_inner_key(self.table_id, from_key),
                end_inner_key: build_inner_key(self.table_id, to_key),
            },
        );
        self.ops.push(op);
    }

    /// Commits the batch: all of it or none of it.
    pub fn write(self, store: &mut Store) -> (r: Result<(), Error>)
        requires
            old(store).wf(),
            self.ops@.len() <= u64::MAX - old(store).next_sn,
        ensures
            final(store).wf(),
            r is Ok,
            forall|q: Seq<u8>| kget(final(store).contents(), q) == lookup_after(
                old(store).contents(),
                self.ops@,
                q,
            ),
            self.ops@.len() > 0 ==> final(store).log().len() == old(store).log().len() + 1
                && batch_matches(final(store).log().last(), old(store).next_sn, self.ops@)
                && final(store).next_sn == old(store).next_sn + self.ops@.len(),
            self.ops@.len() == 0 ==> *final(store) == *old(store),
    {
        store.write(self.ops);
        Ok(())
    }
}

/// A batch of operations against one table of a TTL store: every write
/// is framed with the time the operation was added to the batch.
pub struct TtlWriteBatch {
    pub ops: Vec<WriteOp>,
    pub table_id: TableId,
}

impl TtlWriteBatch {
    pub fn table_id(&self) -> (r: TableId)
        ensures
            r == self.table_id,
    {
        self.table_id
    }

    /// Adds a write of `value` under `key`, framed with the time of the
    /// call.
    pub fn put(&mut self, key: &[u8], value: &[u8])
        ensures
            final(self).table_id == old(self).table_id,
            final(self).ops@ == old(self).ops@.push(final(self).ops@.last()),
            op_is_timestamped_put(
                final(self).ops@.last(),
                spec_inner_key(old(self).table_id@, key@),
                value@,
            ),
    {
        let ts = crate::clock::now();
        let tv = build_timestamped_value(u32_to_u8a4(ts), value);
        proof {
            crate::codec::lemma_timestamped_value_roundtrip(spec_u32_to_be(ts), value@);
        }
        let op = WriteOp::PutOp(
            PutOp { inner_key: build_inner_key(self.table_id, key), inner_value: tv },
        );
        self.ops.push(op);
    }

    /// Adds a delete of `key`.
    pub fn delete(&mut self, key: &[u8])
        ensures
            final(self).table_id == old(self).table_id,
            final(self).ops@ == old(self).ops@.push(final(self).ops@.last()),
            op_is_delete(final(self).ops@.last(), spec_inner_key(old(self).table_id@, key@)),
    {
        let op = WriteOp::DeleteOp(DeleteOp { inner_key: build_inner_key(self.table_id, key) });
        self.ops.push(op);
    }

    /// Adds a delete of the key range `[from_key, to_key)`.
    pub fn delete_range(&mut self, from_key: &[u8], to_key: &[u8])
        ensures
            final(self).table_id == old(self).table_id,
            final(self).ops@ == old(self).ops@.push(final(self).ops@.last()),
            op_is_delete_range(
                final(self).ops@.last(),
                spec_inner_key(old(self).table_id@, from_key@),
                spec_inner_key(old(self).table_id@, to_key@),
            ),
    {
        let op = WriteOp::DeleteRangeOp(
            DeleteRangeOp {
                begin_inner_key: build_inner_key(self.table_id, from_key),
                end_inner_key: build_inner_key(self.table_id, to_key),
            },
        );
        self.ops.push(op);
    }

    /// Commits the batch: all of it or none of it.
    pub fn write(self, store: &mut Store) -> (r: Result<(), Error>)
        requires
            old(store).wf(),
            self.ops@.len() <= u64::MAX - old(store).next_sn,
        ensures
            final(store).wf(),
            r is Ok,
            forall|q: Seq<u8>| kget(final(store).contents(), q) == lookup_after(
                old(store).contents(),
                self.ops@,
                q,
            ),
            self.ops@.len() > 0 ==> final(store).log().len() == old(store).log().len() + 1
                && batch_matches(final(store).log().last(), old(store).next_sn, self.ops@)
                && final(store).next_sn == old(store).next_sn + self.ops@.len(),
            self.ops@.len() == 0 ==> *final(store) == *old(store),
    {
        store.write(self.ops);
        Ok(())
    }
}

/// A batch of operations across any tables of a plain store.
pub struct NormalWriteBatchX {
    pub ops: Vec<WriteOp>,
}

impl NormalWriteBatchX {
    pub fn new() -> (r: NormalWriteBatchX)
        ensures
            r.ops@.len() == 0,
    {
        NormalWriteBatchX { ops: Vec::new() }
    }

    /// Adds a write of `value` under `key` of table `table_id`.
    pub fn put(&mut self, table_id: TableId, key: &[u8], value: &[u8])
        ensures
            final(self).ops@ == old(self).ops@.push(final(self).ops@.last()),
            op_is_put(final(self).ops@.last(), spec_inner_key(table_id@, key@), value@),
    {
        let op = WriteOp::PutOp(
            PutOp {
                inner_key: build_inner_key(table_id, key),
                inner_value: vstd::slice::slice_to_vec(value),
            },
        );
        self.ops.push(op);
    }

    /// Adds a delete of `key` of table `table_id`.
    pub fn delete(&mut self, table_id: TableId, key: &[u8])
        ensures
            final(self).ops@ == old(self).ops@.push(final(self).ops@.last()),
            op_is_delete(final(self).ops@.last(), spec_inner_key(table_id@, key@)),
    {
        let op = WriteOp::DeleteOp(DeleteOp { inner_key: build_inner_key(table_id, key) });
        self.ops.push(op);
    }

    /// Adds a delete of the key range `[from_key, to_key)` of table
    /// `table_id`.
    pub fn delete_range(&mut self, table_id: TableId, from_key: &[u8], to_key: &[u8])
        ensures
            final(self).ops@ == old(self).ops@.push(final(self).ops@.last()),
            op_is_delete_range(
                final(self).ops@.last(),
                spec_inner_key(table_id@, from_key@),
                spec_inner_key(table_id@, to_key@),
            ),
    {
        let op = WriteOp::DeleteRangeOp(
            DeleteRangeOp {
                begin_inner_key: build_inner_key(table_id, from_key),
                end_inner_key: build_inner_key(table_id, to_key),
            },
        );
        self.ops.push(op);
    }

    /// Commits the batch: all of it or none of it.
    pub fn write(self, store: &mut Store) -> (r: Result<(), Error>)
        requires
            old(store).wf(),
            self.ops@.len() <= u64::MAX - old(store).next_sn,
        ensures
            final(store).wf(),
            r is Ok,
            forall|q: Seq<u8>| kget(final(store).contents(), q) == lookup_after(
                old(store).contents(),
                self.ops@,
                q,
            ),
            self.ops@.len() > 0 ==> final(store).log().len() == old(store).log().len() + 1
                && batch_matches(final(store).log().last(), old(store).next_sn, self.ops@)
                && final(store).next_sn == old(store).next_sn + self.ops@.len(),
            self.ops@.len() == 0 ==> *final(store) == *old(store),
    {
        store.write(self.ops);
        Ok(())
    }
}

/// A batch of operations across any tables of a TTL store: every write
/// is framed with the time the operation was added to the batch.
pub struct TtlWriteBatchX {
    pub ops: Vec<WriteOp>,
}

impl TtlWriteBatchX {
    pub fn new() -> (r: TtlWriteBatchX)
        ensures
            r.ops@.len() == 0,
    {
        TtlWriteBatchX { ops: Vec::new() }
    }

    /// Adds a write of `value` under `key` of table `table_id`, framed
    /// with the time of the call.
    pub fn put(&mut self, table_id: TableId, key: &[u8], value: &[u8])
        ensures
            final(self).ops@ == old(self).ops@.push(final(self).ops@.last()),
            op_is_timestamped_put(
                final(self).ops@.last(),
                spec_inner_key(table_id@, key@),
                value@,
            ),
    {
        let ts = crate::clock::now();
        let tv = build_timestamped_value(u32_to_u8a4(ts), value);
        proof {
            crate::codec::lemma_timestamped_value_roundtrip(spec_u32_to_be(ts), value@);
        }
        let op = WriteOp::PutOp(
            PutOp { inner_key: build_inner_key(table_id, key), inner_value: tv },
        );
        self.ops.push(op);
    }

    /// Adds a delete of `key` of table `table_id`.
    pub fn delete(&mut self, table_id: TableId, key: &[u8])
        ensures
            final(self).ops@ == old(self).ops@.push(final(self).ops@.last()),
            op_is_delete(final(self).ops@.last(), spec_inner_key(table_id@, key@)),
    {
        let op = WriteOp::DeleteOp(DeleteOp { inner_key: build_inner_key(table_id, key) });
        self.ops.push(op);
    }

    /// Adds a delete of the key range `[from_key, to_key)` of table
    /// `table_id`.
    pub fn delete_range(&mut self, table_id: TableId, from_key: &[u8], to_key: &[u8])
        ensures
            final(self).ops@ == old(self).ops@.push(final(self).ops@.last()),
            op_is_delete_range(
                final(self).ops@.last(),
                spec_inner_key(table_id@, from_key@),
                spec_inner_key(table_id@, to_key@),
            ),
    {
        let op = WriteOp::DeleteRangeOp(
            DeleteRangeOp {
                begin_inner_key: build_inner_key(table_id, from_key),
                end_inner_key: build_inner_key(table_id, to_key),
            },
        );
        self.ops.push(op);
    }

    /// Commits the batch: all of it or none of it.
    pub fn write(self, store: &mut Store) -> (r: Result<(), Error>)
        requires
            old(store).wf(),
            self.ops@.len() <= u64::MAX - old(store).next_sn,
        ensures
            final(store).wf(),
            r is Ok,
            forall|q: Seq<u8>| kget(final(store).contents(), q) == lookup_after(
                old(store).contents(),
                self.ops@,
                q,
            ),
            self.ops@.len() > 0 ==> final(store).log().len() == old(store).log().len() + 1
                && batch_matches(final(store).log().last(), old(store).next_sn, self.ops@)
                && final(store).next_sn == old(store).next_sn + self.ops@.len(),
            self.ops@.len() == 0 ==> *final(store) == *old(store),
    {
        store.write(self.ops);
        Ok(())
    }
}

} // verus!
