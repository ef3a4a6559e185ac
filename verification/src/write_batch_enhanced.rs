//! Typed views of write batches: every call encodes its keys and
//! values through the coder before it lands in the batch, and each
//! added operation's exact bytes are certified.

use core::marker::PhantomData;

use vstd::prelude::*;

use crate::codec::spec_inner_key;
use crate::coder::Coder;
use crate::entries::kget;
use crate::error::Error;
use crate::store::{batch_matches, lookup_after, Store};
use crate::types::TableId;
use crate::write_batch::{
    op_is_delete, op_is_delete_range, op_is_put, NormalWriteBatch, NormalWriteBatchX,
};

verus! {

/// A single-table write batch together with a coder.
pub struct WriteBatchEnhanced<K: DeepView, V: DeepView, C: Coder<K, V>> {
    pub raw: NormalWriteBatch,
    pub phantom: PhantomData<(K, V, C)>,
}

impl<K: DeepView, V: DeepView, C: Coder<K, V>> WriteBatchEnhanced<K, V, C> {
    pub fn new(raw: NormalWriteBatch) -> (r: WriteBatchEnhanced<K, V, C>)
        ensures
            r.raw == raw,
    {
        WriteBatchEnhanced { raw, phantom: PhantomData }
    }

    /// Adds a write of the encoding of `value` under the encoding of
    /// `key`.
    pub fn put(&mut self, key: &K, value: &V)
        ensures
            final(self).raw.table_id == old(self).raw.table_id,
            final(self).raw.ops@ == old(self).raw.ops@.push(final(self).raw.ops@.last()),
            op_is_put(
                final(self).raw.ops@.last(),
                spec_inner_key(old(self).raw.table_id@, C::spec_encode_key(key.deep_view())),
                C::spec_encode_value(value.deep_view()),
            ),
    {
        let ek = C::encode_key(key);
        let ev = C::encode_value(value);
        self.raw.put(ek.as_slice(), ev.as_slice())
    }

    /// Adds a delete of the encoding of `key`.
    pub fn delete(&mut self, key: &K)
        ensures
            final(self).raw.table_id == old(self).raw.table_id,
            final(self).raw.ops@ == old(self).raw.ops@.push(final(self).raw.ops@.last()),
            op_is_delete(
                final(self).raw.ops@.last(),
                spec_inner_key(old(self).raw.table_id@, C::spec_encode_key(key.deep_view())),
            ),
    {
        let ek = C::encode_key(key);
        self.raw.delete(ek.as_slice())
    }

    /// Adds a delete of the range between the encodings of the two
    /// keys, the end exclusive.
    pub fn delete_range(&mut self, from_key: &K, to_key: &K)
        ensures
            final(self).raw.table_id == old(self).raw.table_id,
            final(self).raw.ops@ == old(self).raw.ops@.push(final(self).raw.ops@.last()),
            op_is_delete_range(
                final(self).raw.ops@.last(),
                spec_inner_key(old(self).raw.table_id@, C::spec_encode_key(from_key.deep_view())),
                spec_inner_key(old(self).raw.table_id@, C::spec_encode_key(to_key.deep_view())),
            ),
    {
        let ef = C::encode_key(from_key);
        let et = C::encode_key(to_key);
        self.raw.delete_range(ef.as_slice(), et.as_slice())
    }

    /// Commits the batch: all of it or none of it, one log record.
    pub fn write(self, store: &mut Store) -> (r: Result<(), Error>)
        requires
            old(store).wf(),
            self.raw.ops@.len() <= u64::MAX - old(store).next_sn,
        ensures
            final(store).wf(),
            r is Ok,
            forall|q: Seq<u8>| kget(final(store).contents(), q) == lookup_after(
                old(store).contents(),
                self.raw.ops@,
                q,
            ),
            self.raw.ops@.len() > 0 ==> final(store).log().len() == old(store).log().len() + 1
                && batch_matches(final(store).log().last(), old(store).next_sn, self.raw.ops@)
                && final(store).next_sn == old(store).next_sn + self.raw.ops@.len(),
            self.raw.ops@.len() == 0 ==> *final(store) == *old(store),
    {
        self.raw.write(store)
    }
}

/// A cross-table write batch together with a coder.
pub struct WriteBatchXEnhanced<K: DeepView, V: DeepView, C: Coder<K, V>> {
    pub raw: NormalWriteBatchX,
    pub phantom: PhantomData<(K, V, C)>,
}

impl<K: DeepView, V: DeepView, C: Coder<K, V>> WriteBatchXEnhanced<K, V, C> {
    pub fn new(raw: NormalWriteBatchX) -> (r: WriteBatchXEnhanced<K, V, C>)
        ensures
            r.raw == raw,
    {
        WriteBatchXEnhanced { raw, phantom: PhantomData }
    }

    /// Adds a write of the encoding of `value` under the encoding of
    /// `key` of table `table_id`.
    pub fn put(&mut self, table_id: TableId, key: &K, value: &V)
        ensures
            final(self).raw.ops@ == old(self).raw.ops@.push(final(self).raw.ops@.last()),
            op_is_put(
                final(self).raw.ops@.last(),
                spec_inner_key(table_id@, C::spec_encode_key(key.deep_view())),
                C::spec_encode_value(value.deep_view()),
            ),
    {
        let ek = C::encode_key(key);
        let ev = C::encode_value(value);
        self.raw.put(table_id, ek.as_slice(), ev.as_slice())
    }

    /// Adds a delete of the encoding of `key` of table `table_id`.
    pub fn delete(&mut self, table_id: TableId, key: &K)
        ensures
            final(self).raw.ops@ == old(self).raw.ops@.push(final(self).raw.ops@.last()),
            op_is_delete(
                final(self).raw.ops@.last(),
                spec_inner_key(table_id@, C::spec_encode_key(key.deep_view())),
            ),
    {
        let ek = C::encode_key(key);
        self.raw.delete(table_id, ek.as_slice())
    }

    /// Adds a delete of the range between the encodings of the two
    /// keys of table `table_id`, the end exclusive.
    pub fn delete_range(&mut self, table_id: TableId, from_key: &K, to_key: &K)
        ensures
            final(self).raw.ops@ == old(self).raw.ops@.push(final(self).raw.ops@.last()),
            op_is_delete_range(
                final(self).raw.ops@.last(),
                spec_inner_key(table_id@, C::spec_encode_key(from_key.deep_view())),
                spec_inner_key(table_id@, C::spec_encode_key(to_key.deep_view())),
            ),
    {
        let ef = C::encode_key(from_key);
        let et = C::encode_key(to_key);
        self.raw.delete_range(table_id, ef.as_slice(), et.as_slice())
    }

    /// Commits the batch: all of it or none of it, one log record.
    pub fn write(self, store: &mut Store) -> (r: Result<(), Error>)
        requires
            old(store).wf(),
            self.raw.ops@.len() <= u64::MAX - old(store).next_sn,
        ensures
            final(store).wf(),
            r is Ok,
            forall|q: Seq<u8>| kget(final(store).contents(), q) == lookup_after(
                old(store).contents(),
                self.raw.ops@,
                q,
            ),
            self.raw.ops@.len() > 0 ==> final(store).log().len() == old(store).log().len() + 1
                && batch_matches(final(store).log().last(), old(store).next_sn, self.raw.ops@)
                && final(store).next_sn == old(store).next_sn + self.raw.ops@.len(),
            self.raw.ops@.len() == 0 ==> *final(store) == *old(store),
    {
        self.raw.write(store)
    }
}

} // verus!
