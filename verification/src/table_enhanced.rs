//! The typed view of a table: every read and write goes through the
//! coder, and bounded cursor walks answer range queries with a
//! caller-supplied result-count limit. The contracts pin each query's
//! result exactly, over the table's section and the coder's encoding.

use core::marker::PhantomData;

use vstd::prelude::*;

use crate::codec::{lex_less, spec_inner_key};
use crate::cursor::{
    lemma_counts_bounds, lemma_lower_bound_is_count, lemma_upper_bound_is_count,
    lemma_upper_count_ge, lemma_upper_count_le, spec_lower_bound, spec_section, spec_upper_count,
    NormalCursor,
};
use crate::coder::Coder;
use crate::entries::{entries_view, in_range, kget};
use crate::error::Error;
use crate::lex::{lemma_lex_asym, lemma_lex_trans, KeyOrder, lex_cmp};
use crate::store::Store;
use crate::table::NormalTable;
use crate::types::TableId;

verus! {

/// How many records a bounded walk over `avail` candidates returns
/// under a result-count limit.
pub open spec fn window_len(avail: int, limit: u32) -> int {
    if avail < 0 {
        0
    } else if limit as int <= avail {
        limit as int
    } else {
        avail
    }
}

/// A table together with a coder for its keys and values.
pub struct TableEnhanced<K: DeepView, V: DeepView, C: Coder<K, V>> {
    pub raw: NormalTable,
    pub phantom: PhantomData<(K, V, C)>,
}

impl<K: DeepView, V: DeepView, C: Coder<K, V>> TableEnhanced<K, V, C> {
    pub fn new(raw: NormalTable) -> (r: TableEnhanced<K, V, C>)
        ensures
            r.raw == raw,
    {
        TableEnhanced { raw, phantom: PhantomData }
    }

    pub fn raw(&self) -> (r: &NormalTable)
        ensures
            r == self.raw,
    {
        &self.raw
    }

    pub fn id(&self) -> (r: TableId)
        ensures
            r == self.raw.id,
    {
        self.raw.id
    }

    /// This table's section of the given contents.
    pub open spec fn sec(self, m: Seq<(Seq<u8>, Seq<u8>)>) -> Seq<(Seq<u8>, Seq<u8>)> {
        spec_section(m, self.raw.id@)
    }

    /// Writes the encoding of `value` under the encoding of `key`.
    pub fn put(&self, store: &mut Store, key: &K, value: &V) -> (r: Result<(), Error>)
        requires
            old(store).wf(),
            old(store).next_sn < u64::MAX,
        ensures
            final(store).wf(),
            r is Ok,
            kget(
                final(store).contents(),
                spec_inner_key(self.raw.id@, C::spec_encode_key(key.deep_view())),
            ) == Some(C::spec_encode_value(value.deep_view())),
            forall|q: Seq<u8>|
                q != spec_inner_key(self.raw.id@, C::spec_encode_key(key.deep_view())) ==> kget(
                    final(store).contents(),
                    q,
                ) == kget(old(store).contents(), q),
            final(store).next_sn == old(store).next_sn + 1,
    {
        let ek = C::encode_key(key);
        let ev = C::encode_value(value);
        self.raw.put(store, ek.as_slice(), ev.as_slice())
    }

    /// Deletes the record under the encoding of `key`.
    pub fn delete(&self, store: &mut Store, key: &K) -> (r: Result<(), Error>)
        requires
            old(store).wf(),
            old(store).next_sn < u64::MAX,
        ensures
            final(store).wf(),
            r is Ok,
            kget(
                final(store).contents(),
                spec_inner_key(self.raw.id@, C::spec_encode_key(key.deep_view())),
            ) == None::<Seq<u8>>,
            forall|q: Seq<u8>|
                q != spec_inner_key(self.raw.id@, C::spec_encode_key(key.deep_view())) ==> kget(
                    final(store).contents(),
                    q,
                ) == kget(old(store).contents(), q),
            final(store).next_sn == old(store).next_sn + 1,
    {
        let ek = C::encode_key(key);
        self.raw.delete(store, ek.as_slice())
    }

    /// Deletes every record between the encodings of the two keys, the
    /// end exclusive.
    pub fn delete_range(&self, store: &mut Store, from_key: &K, to_key: &K) -> (r: Result<
        (),
        Error,
    >)
        requires
            old(store).wf(),
            old(store).next_sn < u64::MAX,
        ensures
            final(store).wf(),
            r is Ok,
            forall|q: Seq<u8>|
                in_range(
                    q,
                    spec_inner_key(self.raw.id@, C::spec_encode_key(from_key.deep_view())),
                    spec_inner_key(self.raw.id@, C::spec_encode_key(to_key.deep_view())),
                ) ==> kget(final(store).contents(), q) == None::<Seq<u8>>,
            forall|q: Seq<u8>|
                !in_range(
                    q,
                    spec_inner_key(self.raw.id@, C::spec_encode_key(from_key.deep_view())),
                    spec_inner_key(self.raw.id@, C::spec_encode_key(to_key.deep_view())),
                ) ==> kget(final(store).contents(), q) == kget(old(store).contents(), q),
            final(store).next_sn == old(store).next_sn + 1,
    {
        let ef = C::encode_key(from_key);
        let et = C::encode_key(to_key);
        self.raw.delete_range(store, ef.as_slice(), et.as_slice())
    }

    /// Reads and decodes the value under the encoding of `key`.
    pub fn get(&self, store: &Store, key: &K) -> (r: Result<Option<V>, Error>)
        requires
            store.wf(),
        ensures
            match r {
                Ok(Some(v)) => kget(
                    store.contents(),
                    spec_inner_key(self.raw.id@, C::spec_encode_key(key.deep_view())),
                ) matches Some(sv) && v.deep_view() == C::spec_decode_value(sv),
                Ok(None) => kget(
                    store.contents(),
                    spec_inner_key(self.raw.id@, C::spec_encode_key(key.deep_view())),
                ) == None::<Seq<u8>>,
                Err(_) => false,
            },
    {
        let ek = C::encode_key(key);
        match self.raw.get(store, ek.as_slice()) {
            Ok(Some(v)) => Ok(Some(C::decode_value(v.as_slice()))),
            Ok(None) => Ok(None),
            Err(e) => Err(e),
        }
    }

    /// The value `n` records back from the table's end: the decoded
    /// value at the (n+1)-th greatest key, or nothing when the table
    /// holds no more than `n` records.
    pub fn get_reverse_nth(&self, store: &Store, n: u32) -> (r: Option<V>)
        requires
            store.wf(),
        ensures
            (n as int) < self.sec(store.contents()).len() ==> ({
                &&& r matches Some(v)
                &&& v.deep_view() == C::spec_decode_value(
                    self.sec(store.contents())[self.sec(store.contents()).len() - 1 - n].1,
                )
            }),
            (n as int) >= self.sec(store.contents()).len() ==> r is None,
    {
        let ghost sec = self.sec(store.contents());
        let mut cursor = self.new_cursor(store);
        cursor.seek_to_last();
        let ghost len = sec.len() as int;
        let mut count: u32 = 0;
        while count < n && cursor.is_valid()
            invariant
                cursor.wf(),
                entries_view(cursor.items@) == sec,
                count <= n,
                cursor.spec_valid() ==> cursor.pos as int == len - 1 - count,
                !cursor.spec_valid() ==> count == len,
            decreases n - count,
        {
            cursor.prev();
            count = count + 1;
        }
        if count == n {
            match cursor.value() {
                Some(v) => Some(C::decode_value(v.as_slice())),
                None => None,
            }
        } else {
            None
        }
    }

    /// At most `limit` values of the records whose keys sort at or
    /// after the encoding of `key`, forward: exactly the first
    /// `min(limit, available)` of them, decoded, in key order.
    pub fn get_since(&self, store: &Store, key: &K, limit: u32) -> (r: Vec<V>)
        requires
            store.wf(),
        ensures
            ({
                let sec = self.sec(store.contents());
                let lb = spec_lower_bound(sec, C::spec_encode_key(key.deep_view()));
                &&& r@.len() == window_len(sec.len() - lb, limit)
                &&& forall|i: int|
                    0 <= i < r@.len() ==> (#[trigger] r@[i]).deep_view() == C::spec_decode_value(
                        sec[lb + i].1,
                    )
            }),
    {
        let ghost sec = self.sec(store.contents());
        let mut values: Vec<V> = Vec::new();
        let mut count: u32 = 0;
        let mut cursor = self.new_cursor(store);
        let ek = C::encode_key(key);
        cursor.seek(ek.as_slice());
        proof {
            lemma_lower_bound_is_count(sec, ek@, cursor.pos as int);
        }
        let ghost lb = spec_lower_bound(sec, ek@);
        while count < limit && cursor.is_valid()
            invariant
                cursor.wf(),
                entries_view(cursor.items@) == sec,
                count <= limit,
                values@.len() == count,
                cursor.pos as int == lb + count,
                cursor.pos <= sec.len(),
                0 <= lb <= sec.len(),
                forall|i: int|
                    0 <= i < count ==> (#[trigger] values@[i]).deep_view()
                        == C::spec_decode_value(sec[lb + i].1),
            decreases limit - count,
        {
            match cursor.value() {
                Some(v) => values.push(C::decode_value(v.as_slice())),
                None => {
                    proof {
                        assert(false);
                    }
                },
            }
            cursor.next();
            count = count + 1;
        }
        values
    }

    /// At most `limit` values of the records whose keys sort at or
    /// before the encoding of `key`: exactly the last
    /// `min(limit, available)` of them, decoded, in key order.
    pub fn get_until(&self, store: &Store, key: &K, limit: u32) -> (r: Vec<V>)
        requires
            store.wf(),
        ensures
            ({
                let sec = self.sec(store.contents());
                let ub = spec_upper_count(sec, C::spec_encode_key(key.deep_view()));
                &&& r@.len() == window_len(ub, limit)
                &&& forall|i: int|
                    0 <= i < r@.len() ==> (#[trigger] r@[i]).deep_view() == C::spec_decode_value(
                        sec[ub - r@.len() + i].1,
                    )
            }),
    {
        let ghost sec = self.sec(store.contents());
        let mut reversed: Vec<V> = Vec::new();
        let mut count: u32 = 0;
        let mut cursor = self.new_cursor(store);
        let ek = C::encode_key(key);
        cursor.seek_for_prev(ek.as_slice());
        proof {
            lemma_upper_bound_is_count(sec, ek@, cursor.pos as int);
            lemma_counts_bounds(sec, ek@);
        }
        let ghost ub = spec_upper_count(sec, ek@);
        while count < limit && cursor.is_valid()
            invariant
                cursor.wf(),
                entries_view(cursor.items@) == sec,
                count <= limit,
                reversed@.len() == count,
                0 <= ub <= sec.len(),
                cursor.spec_valid() ==> cursor.pos as int == ub - 1 - count,
                !cursor.spec_valid() ==> count == ub,
                forall|i: int|
                    0 <= i < count ==> (#[trigger] reversed@[i]).deep_view()
                        == C::spec_decode_value(sec[ub - 1 - i].1),
            decreases limit - count,
        {
            match cursor.value() {
                Some(v) => reversed.push(C::decode_value(v.as_slice())),
                None => {
                    proof {
                        assert(false);
                    }
                },
            }
            cursor.prev();
            count = count + 1;
        }
        reverse_vec(reversed)
    }

    /// At most `limit` of the table's last values: exactly the last
    /// `min(limit, all)` of them, decoded, in key order.
    pub fn get_until_last(&self, store: &Store, limit: u32) -> (r: Vec<V>)
        requires
            store.wf(),
        ensures
            ({
                let sec = self.sec(store.contents());
                &&& r@.len() == window_len(sec.len() as int, limit)
                &&& forall|i: int|
                    0 <= i < r@.len() ==> (#[trigger] r@[i]).deep_view() == C::spec_decode_value(
                        sec[sec.len() - r@.len() + i].1,
                    )
            }),
    {
        let ghost sec = self.sec(store.contents());
        let mut reversed: Vec<V> = Vec::new();
        let mut count: u32 = 0;
        let mut cursor = self.new_cursor(store);
        cursor.seek_to_last();
        let ghost len = sec.len() as int;
        while count < limit && cursor.is_valid()
            invariant
                cursor.wf(),
                entries_view(cursor.items@) == sec,
                count <= limit,
                reversed@.len() == count,
                cursor.spec_valid() ==> cursor.pos as int == len - 1 - count,
                !cursor.spec_valid() ==> count == len,
                forall|i: int|
                    0 <= i < count ==> (#[trigger] reversed@[i]).deep_view()
                        == C::spec_decode_value(sec[len - 1 - i].1),
            decreases limit - count,
        {
            match cursor.value() {
                Some(v) => reversed.push(C::decode_value(v.as_slice())),
                None => {
                    proof {
                        assert(false);
                    }
                },
            }
            cursor.prev();
            count = count + 1;
        }
        reverse_vec(reversed)
    }

    /// At most `limit` values of the records whose keys sort between
    /// the encodings of the two keys, both ends inclusive: exactly the
    /// first `min(limit, available)` of them, decoded, in key order.
    pub fn get_between(&self, store: &Store, begin_key: &K, end_key: &K, limit: u32) -> (r: Vec<V>)
        requires
            store.wf(),
        ensures
            ({
                let sec = self.sec(store.contents());
                let lb = spec_lower_bound(sec, C::spec_encode_key(begin_key.deep_view()));
                let ub = spec_upper_count(sec, C::spec_encode_key(end_key.deep_view()));
                &&& r@.len() == window_len(ub - lb, limit)
                &&& forall|i: int|
                    0 <= i < r@.len() ==> (#[trigger] r@[i]).deep_view() == C::spec_decode_value(
                        sec[lb + i].1,
                    )
            }),
    {
        let ghost sec = self.sec(store.contents());
        let mut values: Vec<V> = Vec::new();
        let mut count: u32 = 0;
        let mut cursor = self.new_cursor(store);
        let eb = C::encode_key(begin_key);
        let ee = C::encode_key(end_key);
        cursor.seek(eb.as_slice());
        proof {
            lemma_lower_bound_is_count(sec, eb@, cursor.pos as int);
            lemma_counts_bounds(sec, ee@);
        }
        let ghost lb = spec_lower_bound(sec, eb@);
        let ghost ub = spec_upper_count(sec, ee@);
        loop
            invariant
                cursor.wf(),
                entries_view(cursor.items@) == sec,
                count <= limit,
                values@.len() == count,
                cursor.pos as int == lb + count,
                cursor.pos <= sec.len(),
                0 <= lb <= sec.len(),
                0 <= ub <= sec.len(),
                ub == spec_upper_count(sec, ee@),
                forall|i: int| 0 <= i < count ==> !lex_less(ee@, #[trigger] sec[lb + i].0),
                forall|i: int|
                    0 <= i < count ==> (#[trigger] values@[i]).deep_view()
                        == C::spec_decode_value(sec[lb + i].1),
            ensures
                values@.len() == window_len(ub - lb, limit),
                forall|i: int|
                    0 <= i < values@.len() ==> (#[trigger] values@[i]).deep_view()
                        == C::spec_decode_value(sec[lb + i].1),
            decreases limit - count,
        {
            if !(count < limit && cursor.is_valid()) {
                proof {
                    lemma_between_window(sec, ee@, lb, count as int, cursor.pos as int, limit);
                }
                break ;
            }
            let curr_key = match cursor.key() {
                Some(k) => k,
                None => {
                    proof {
                        assert(false);
                    }
                    Vec::new()
                },
            };
            proof {
                assert(curr_key@ == sec[lb + count].0);
            }
            if lex_cmp(curr_key.as_slice(), ee.as_slice()) == KeyOrder::Greater {
                proof {
                    assert(lex_less(ee@, sec[lb + count].0));
                    lemma_between_window_break(sec, ee@, lb, count as int, limit);
                }
                break ;
            }
            let ghost values0 = values@;
            match cursor.value() {
                Some(v) => values.push(C::decode_value(v.as_slice())),
                None => {
                    proof {
                        assert(false);
                    }
                },
            }
            proof {
                assert(values@.len() == count + 1);
                assert(!lex_less(ee@, sec[lb + (count as int)].0));
                assert forall|i: int| 0 <= i < count + 1 implies (
                #[trigger] values@[i]).deep_view() == C::spec_decode_value(sec[lb + i].1) by {
                    if i < count {
                        assert(values@[i] == values0[i]);
                        assert(values0[i].deep_view() == C::spec_decode_value(sec[lb + i].1));
                    } else {
                        assert(values@[i].deep_view() == C::spec_decode_value(
                            sec[lb + (count as int)].1,
                        ));
                    }
                }
            }
            cursor.next();
            count = count + 1;
        }
        values
    }

    /// The table's first key, decoded; nothing when the table is empty.
    pub fn get_first_key(&self, store: &Store) -> (r: Option<K>)
        requires
            store.wf(),
        ensures
            self.sec(store.contents()).len() > 0 ==> ({
                &&& r matches Some(k)
                &&& k.deep_view() == C::spec_decode_key(self.sec(store.contents())[0].0)
            }),
            self.sec(store.contents()).len() == 0 ==> r is None,
    {
        let mut cursor = self.new_cursor(store);
        cursor.seek_to_first();
        match cursor.key() {
            Some(k) => Some(C::decode_key(k.as_slice())),
            None => None,
        }
    }

    /// The table's last key, decoded; nothing when the table is empty.
    pub fn get_last_key(&self, store: &Store) -> (r: Option<K>)
        requires
            store.wf(),
        ensures
            self.sec(store.contents()).len() > 0 ==> ({
                &&& r matches Some(k)
                &&& k.deep_view() == C::spec_decode_key(
                    self.sec(store.contents()).last().0,
                )
            }),
            self.sec(store.contents()).len() == 0 ==> r is None,
    {
        let mut cursor = self.new_cursor(store);
        cursor.seek_to_last();
        match cursor.key() {
            Some(k) => Some(C::decode_key(k.as_slice())),
            None => None,
        }
    }

    /// The table's first and last keys, decoded; nothing when the
    /// table is empty.
    pub fn get_boundary_keys(&self, store: &Store) -> (r: Option<(K, K)>)
        requires
            store.wf(),
        ensures
            self.sec(store.contents()).len() > 0 ==> ({
                &&& r matches Some(ks)
                &&& ks.0.deep_view() == C::spec_decode_key(self.sec(store.contents())[0].0)
                &&& ks.1.deep_view() == C::spec_decode_key(self.sec(store.contents()).last().0)
            }),
            self.sec(store.contents()).len() == 0 ==> r is None,
    {
        let mut cursor = self.new_cursor(store);
        cursor.seek_to_first();
        match cursor.key() {
            Some(first) => {
                cursor.seek_to_last();
                match cursor.key() {
                    Some(last) => Some(
                        (C::decode_key(first.as_slice()), C::decode_key(last.as_slice())),
                    ),
                    None => None,
                }
            },
            None => None,
        }
    }

    /// An empty typed write batch against this table.
    pub fn new_write_batch(&self) -> (r: crate::write_batch_enhanced::WriteBatchEnhanced<K, V, C>)
        ensures
            r.raw.table_id == self.raw.id,
            r.raw.ops@.len() == 0,
    {
        crate::write_batch_enhanced::WriteBatchEnhanced::new(self.raw.new_write_batch())
    }

    /// A raw cursor over this table, pinned to the store's state at
    /// the time of the call.
    pub fn new_cursor(&self, store: &Store) -> (r: NormalCursor)
        requires
            store.wf(),
        ensures
            r.wf(),
            entries_view(r.items@) == self.sec(store.contents()),
    {
        self.raw.new_cursor(store)
    }

    /// A typed view of this table's raw cursor.
    pub fn new_cursor_enhanced(&self, store: &Store) -> (r:
        crate::cursor_enhanced::CursorEnhanced<K, V, C>)
        requires
            store.wf(),
        ensures
            r.raw.wf(),
            entries_view(r.raw.items@) == self.sec(store.contents()),
    {
        crate::cursor_enhanced::CursorEnhanced::new(self.raw.new_cursor(store))
    }
}

impl NormalTable {
    /// This table, seen through a coder.
    pub fn enhance<K: DeepView, V: DeepView, C: Coder<K, V>>(self) -> (r: TableEnhanced<K, V, C>)
        ensures
            r.raw == self,
    {
        TableEnhanced::new(self)
    }
}

/// A bounded forward walk that stopped at the limit or at the section's
/// end took exactly the window the upper count allows.
proof fn lemma_between_window(
    sec: Seq<(Seq<u8>, Seq<u8>)>,
    ee: Seq<u8>,
    lb: int,
    count: int,
    pos: int,
    limit: u32,
)
    requires
        crate::entries::sorted(sec),
        0 <= lb,
        0 <= count,
        pos == lb + count,
        pos <= sec.len(),
        count <= limit,
        count == limit || pos == sec.len(),
        forall|i: int| 0 <= i < count ==> !lex_less(ee, #[trigger] sec[lb + i].0),
    ensures
        count == window_len(spec_upper_count(sec, ee) - lb, limit),
{
    let ub = spec_upper_count(sec, ee);
    lemma_counts_bounds(sec, ee);
    if count > 0 {
        assert forall|j: int| 0 <= j < lb + count implies !lex_less(ee, #[trigger] sec[j].0) by {
            if j < lb {
                assert(!lex_less(ee, sec[lb + 0].0));
                assert(lex_less(sec[j].0, sec[lb as int].0));
                if lex_less(ee, sec[j].0) {
                    lemma_lex_trans(ee, sec[j].0, sec[lb as int].0);
                }
            } else {
                assert(!lex_less(ee, sec[lb + (j - lb)].0));
            }
        }
        lemma_upper_count_ge(sec, ee, lb + count);
    }
    if count == limit {
    } else {
        assert(pos == sec.len());
        if count == 0 {
            assert(lb == sec.len());
        }
    }
}

/// A bounded forward walk that stopped on a key past the end key took
/// exactly the window the upper count allows.
proof fn lemma_between_window_break(
    sec: Seq<(Seq<u8>, Seq<u8>)>,
    ee: Seq<u8>,
    lb: int,
    count: int,
    limit: u32,
)
    requires
        crate::entries::sorted(sec),
        0 <= lb,
        0 <= count,
        lb + count < sec.len(),
        count < limit,
        lex_less(ee, sec[lb + count].0),
        forall|i: int| 0 <= i < count ==> !lex_less(ee, #[trigger] sec[lb + i].0),
    ensures
        count == window_len(spec_upper_count(sec, ee) - lb, limit),
{
    let ub = spec_upper_count(sec, ee);
    lemma_counts_bounds(sec, ee);
    assert forall|j: int| 0 <= j < sec.len() && !lex_less(ee, #[trigger] sec[j].0) implies j < lb
        + count by {
        if j >= lb + count {
            if j > lb + count {
                assert(lex_less(sec[lb + count].0, sec[j].0));
                lemma_lex_trans(ee, sec[lb + count].0, sec[j].0);
            }
            assert(lex_less(ee, sec[j].0));
            lemma_lex_asym(ee, sec[j].0);
        }
    }
    lemma_upper_count_le(sec, ee, lb + count);
    if count > 0 {
        assert forall|j: int| 0 <= j < lb + count implies !lex_less(ee, #[trigger] sec[j].0) by {
            if j < lb {
                assert(!lex_less(ee, sec[lb + 0].0));
                assert(lex_less(sec[j].0, sec[lb as int].0));
                if lex_less(ee, sec[j].0) {
                    lemma_lex_trans(ee, sec[j].0, sec[lb as int].0);
                }
            } else {
                assert(!lex_less(ee, sec[lb + (j - lb)].0));
            }
        }
        lemma_upper_count_ge(sec, ee, lb + count);
        assert(ub == lb + count);
    } else {
        assert(ub <= lb);
    }
}

/// The same values, back to front.
fn reverse_vec<V>(mut v: Vec<V>) -> (r: Vec<V>)
    ensures
        r@.len() == v@.len(),
        forall|i: int| 0 <= i < r@.len() ==> #[trigger] r@[i] == v@[v@.len() - 1 - i],
{
    let ghost orig = v@;
    let mut r: Vec<V> = Vec::new();
    while v.len() > 0
        invariant
            r@.len() + v@.len() == orig.len(),
            v@ == orig.subrange(0, v@.len() as int),
            forall|i: int| 0 <= i < r@.len() ==> #[trigger] r@[i] == orig[orig.len() - 1 - i],
        decreases v.len(),
    {
        match v.pop() {
            Some(x) => {
                proof {
                    assert(x == orig[v@.len() as int]);
                    assert(v@ =~= orig.subrange(0, v@.len() as int));
                }
                r.push(x);
            },
            None => {
                proof {
                    assert(false);
                }
            },
        }
    }
    r
}

} // verus!
