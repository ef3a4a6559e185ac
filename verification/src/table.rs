//! Table handles: a table is addressed by its id, and every operation
//! applies the table-id prefix transparently. A TTL table additionally
//! frames every written value with the write timestamp and strips it on
//! every read.

use vstd::prelude::*;

use crate::codec::{
    build_inner_key, build_tail_anchor, build_timestamped_value, extract_value, spec_inner_key,
    spec_tail_anchor, spec_timestamped_value, spec_u32_to_be, u32_to_u8a4,
};
use crate::entries::{in_range, kget};
use crate::error::Error;
use crate::store::{is_put, Store};
use crate::types::TableId;
use crate::write_batch::{NormalWriteBatch, TtlWriteBatch};

verus! {

/// A handle onto one table of a plain store.
#[derive(Clone, Debug)]
pub struct NormalTable {
    pub id: TableId,
    pub anchor: Vec<u8>,
}

impl NormalTable {
    /// The handle's anchor is its table's tail anchor.
    pub open spec fn wf(self) -> bool {
        self.anchor@ == spec_tail_anchor(self.id@)
    }

    pub fn new(id: TableId) -> (r: NormalTable)
        ensures
            r.wf(),
            r.id == id,
    {
        let anchor = build_tail_anchor(id);
        NormalTable { id, anchor }
    }

    pub fn id(&self) -> (r: TableId)
        ensures
            r == self.id,
    {
        self.id
    }

    /// Writes `value` under `key` in this table.
    pub fn put(&self, store: &mut Store, key: &[u8], value: &[u8]) -> (r: Result<(), Error>)
        requires
            old(store).wf(),
            old(store).next_sn < u64::MAX,
        ensures
            final(store).wf(),
            r is Ok,
            kget(final(store).contents(), spec_inner_key(self.id@, key@)) == Some(value@),
            forall|q: Seq<u8>| q != spec_inner_key(self.id@, key@) ==> kget(
                final(store).contents(),
                q,
            ) == kget(old(store).contents(), q),
            final(store).next_sn == old(store).next_sn + 1,
            final(store).log().len() == old(store).log().len() + 1,
            final(store).log().last().write_ops@.len() == 1,
            is_put(
                final(store).log().last().write_ops@[0],
                spec_inner_key(self.id@, key@),
                value@,
            ),
    {
        store.put(build_inner_key(self.id, key), vstd::slice::slice_to_vec(value));
        Ok(())
    }

    /// Deletes the record under `key` in this table.
    pub fn delete(&self, store: &mut Store, key: &[u8]) -> (r: Result<(), Error>)
        requires
            old(store).wf(),
            old(store).next_sn < u64::MAX,
        ensures
            final(store).wf(),
            r is Ok,
            kget(final(store).contents(), spec_inner_key(self.id@, key@)) == None::<Seq<u8>>,
            forall|q: Seq<u8>| q != spec_inner_key(self.id@, key@) ==> kget(
                final(store).contents(),
                q,
            ) == kget(old(store).contents(), q),
            final(store).next_sn == old(store).next_sn + 1,
            final(store).log().len() == old(store).log().len() + 1,
    {
        store.delete(build_inner_key(self.id, key));
        Ok(())
    }

    /// Deletes every record of this table whose key lies in
    /// `[from_key, to_key)`.
    pub fn delete_range(&self, store: &mut Store, from_key: &[u8], to_key: &[u8]) -> (r: Result<
        (),
        Error,
    >)
        requires
            old(store).wf(),
            old(store).next_sn < u64::MAX,
        ensures
            final(store).wf(),
            r is Ok,
            forall|q: Seq<u8>|
                in_range(q, spec_inner_key(self.id@, from_key@), spec_inner_key(self.id@, to_key@))
                    ==> kget(final(store).contents(), q) == None::<Seq<u8>>,
            forall|q: Seq<u8>|
                !in_range(
                    q,
                    spec_inner_key(self.id@, from_key@),
                    spec_inner_key(self.id@, to_key@),
                ) ==> kget(final(store).contents(), q) == kget(old(store).contents(), q),
            final(store).next_sn == old(store).next_sn + 1,
            final(store).log().len() == old(store).log().len() + 1,
    {
        store.delete_range(build_inner_key(self.id, from_key), build_inner_key(self.id, to_key));
        Ok(())
    }

    /// Reads the value under `key` in this table, if any.
    pub fn get(&self, store: &Store, key: &[u8]) -> (r: Result<Option<Vec<u8>>, Error>)
        requires
            store.wf(),
        ensures
            match r {
                Ok(Some(val)) => kget(store.contents(), spec_inner_key(self.id@, key@)) == Some(
                    val@,
                ),
                Ok(None) => kget(store.contents(), spec_inner_key(self.id@, key@))
                    == None::<Seq<u8>>,
                Err(_) => false,
            },
    {
        let ik = build_inner_key(self.id, key);
        Ok(store.get(ik.as_slice()))
    }

    /// An empty write batch against this table.
    pub fn new_write_batch(&self) -> (r: NormalWriteBatch)
        ensures
            r.table_id == self.id,
            r.ops@.len() == 0,
    {
        NormalWriteBatch { ops: Vec::new(), table_id: self.id }
    }
}

/// A handle onto one table of a TTL store: values carry their write
/// timestamp in front, added on every write and stripped on every read.
#[derive(Clone, Debug)]
pub struct TtlTable {
    pub id: TableId,
    pub anchor: Vec<u8>,
}

impl TtlTable {
    /// The handle's anchor is its table's tail anchor.
    pub open spec fn wf(self) -> bool {
        self.anchor@ == spec_tail_anchor(self.id@)
    }

    pub fn new(id: TableId) -> (r: TtlTable)
        ensures
            r.wf(),
            r.id == id,
    {
        let anchor = build_tail_anchor(id);
        TtlTable { id, anchor }
    }

    pub fn id(&self) -> (r: TableId)
        ensures
            r == self.id,
    {
        self.id
    }

    /// Writes `value` under `key`, framed with the time of the call.
    pub fn put(&self, store: &mut Store, key: &[u8], value: &[u8]) -> (r: Result<(), Error>)
        requires
            old(store).wf(),
            old(store).next_sn < u64::MAX,
        ensures
            final(store).wf(),
            r is Ok,
            ttl_put_applied(*old(store), *final(store), self.id@, key@, value@),
    {
        match self.put_timestamped(store, key, value) {
            Ok(_) => Ok(()),
            Err(e) => Err(e),
        }
    }

    /// Writes `value` under `key`, framed with the time of the call,
    /// and returns that timestamp.
    pub fn put_timestamped(&self, store: &mut Store, key: &[u8], value: &[u8]) -> (r: Result<
        u32,
        Error,
    >)
        requires
            old(store).wf(),
            old(store).next_sn < u64::MAX,
        ensures
            final(store).wf(),
            r is Ok,
            ttl_put_applied(*old(store), *final(store), self.id@, key@, value@),
            r matches Ok(ts) ==> kget(final(store).contents(), spec_inner_key(self.id@, key@))
                == Some(spec_timestamped_value(spec_u32_to_be(ts), value@)),
    {
        let ts = crate::clock::now();
        let tv = build_timestamped_value(u32_to_u8a4(ts), value);
        proof {
            crate::codec::lemma_timestamped_value_roundtrip(spec_u32_to_be(ts), value@);
        }
        store.put(build_inner_key(self.id, key), tv);
        Ok(ts)
    }

    /// Deletes the record under `key` in this table.
    pub fn delete(&self, store: &mut Store, key: &[u8]) -> (r: Result<(), Error>)
        requires
            old(store).wf(),
            old(store).next_sn < u64::MAX,
        ensures
            final(store).wf(),
            r is Ok,
            kget(final(store).contents(), spec_inner_key(self.id@, key@)) == None::<Seq<u8>>,
            forall|q: Seq<u8>| q != spec_inner_key(self.id@, key@) ==> kget(
                final(store).contents(),
                q,
            ) == kget(old(store).contents(), q),
            final(store).next_sn == old(store).next_sn + 1,
    {
        store.delete(build_inner_key(self.id, key));
        Ok(())
    }

    /// Deletes every record of this table whose key lies in
    /// `[from_key, to_key)`.
    pub fn delete_range(&self, store: &mut Store, from_key: &[u8], to_key: &[u8]) -> (r: Result<
        (),
        Error,
    >)
        requires
            old(store).wf(),
            old(store).next_sn < u64::MAX,
        ensures
            final(store).wf(),
            r is Ok,
            forall|q: Seq<u8>|
                in_range(q, spec_inner_key(self.id@, from_key@), spec_inner_key(self.id@, to_key@))
                    ==> kget(final(store).contents(), q) == None::<Seq<u8>>,
            forall|q: Seq<u8>|
                !in_range(
                    q,
                    spec_inner_key(self.id@, from_key@),
                    spec_inner_key(self.id@, to_key@),
                ) ==> kget(final(store).contents(), q) == kget(old(store).contents(), q),
            final(store).next_sn == old(store).next_sn + 1,
    {
        store.delete_range(build_inner_key(self.id, from_key), build_inner_key(self.id, to_key));
        Ok(())
    }

    /// Reads the value under `key`, with its timestamp stripped. A
    /// stored value too short to carry a timestamp reads back as absent.
    pub fn get(&self, store: &Store, key: &[u8]) -> (r: Result<Option<Vec<u8>>, Error>)
        requires
            store.wf(),
        ensures
            match r {
                Ok(Some(val)) => kget(store.contents(), spec_inner_key(self.id@, key@)) matches Some(
                    stored,
                ) && stored.len() >= 4 && val@ == stored.subrange(4, stored.len() as int),
                Ok(None) => kget(store.contents(), spec_inner_key(self.id@, key@)) matches Some(
                    stored,
                ) ==> stored.len() < 4,
                Err(_) => false,
            },
    {
        let ik = build_inner_key(self.id, key);
        match store.get(ik.as_slice()) {
            Some(tv) => {
                if tv.len() >= 4 {
                    Ok(Some(extract_value(tv.as_slice())))
                } else {
                    Ok(None)
                }
            },
            None => Ok(None),
        }
    }

    /// An empty write batch against this table.
    pub fn new_write_batch(&self) -> (r: TtlWriteBatch)
        ensures
            r.table_id == self.id,
            r.ops@.len() == 0,
    {
        TtlWriteBatch { ops: Vec::new(), table_id: self.id }
    }
}

/// What a TTL write leaves behind: the key of this table now holds the
/// written value framed by a four-byte timestamp, every other key is
/// untouched, and one put was logged.
pub open spec fn ttl_put_applied(
    pre: Store,
    post: Store,
    id: Seq<u8>,
    key: Seq<u8>,
    value: Seq<u8>,
) -> bool {
    &&& kget(post.contents(), spec_inner_key(id, key)) matches Some(stored) && stored.len() == 4
        + value.len() && stored.subrange(4, stored.len() as int) == value
    &&& forall|q: Seq<u8>| q != spec_inner_key(id, key) ==> kget(post.contents(), q) == kget(
        pre.contents(),
        q,
    )
    &&& post.next_sn == pre.next_sn + 1
    &&& post.log().len() == pre.log().len() + 1
}

} // verus!
