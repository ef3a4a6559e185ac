//! The ordered key-value engine under the storage layer: one flat,
//! sorted keyspace of byte keys and byte values, plus the write-ahead
//! log of committed batches, each stamped with a monotonic sequence
//! number. A batch commits in full or not at all, and the log keeps one
//! record per committed batch, in commit order.

use vstd::prelude::*;

use crate::entries::{
    entries_delete, entries_delete_range, entries_get, entries_put, entries_view, in_range, kget,
    sorted, Entry,
};
use crate::write_op::{
    batch_eq, op_eq, OptionalWriteOp, WriteOp, WriteOpBatch,
};

verus! {

/// What one key reads back as after one operation, given what it read
/// back as before it.
pub open spec fn op_lookup(r: Option<Seq<u8>>, op: WriteOp, q: Seq<u8>) -> Option<Seq<u8>> {
    match op {
        WriteOp::PutOp(p) => if q == p.inner_key@ {
            Some(p.inner_value@)
        } else {
            r
        },
        WriteOp::DeleteOp(d) => if q == d.inner_key@ {
            None
        } else {
            r
        },
        WriteOp::DeleteRangeOp(rg) => if in_range(q, rg.begin_inner_key@, rg.end_inner_key@) {
            None
        } else {
            r
        },
        WriteOp::MergeOp(m) => if q == m.inner_key@ {
            Some(m.inner_value@)
        } else {
            r
        },
    }
}

/// What one key reads back as after a batch of operations applied left
/// to right over contents `pre`.
pub open spec fn lookup_after(
    pre: Seq<(Seq<u8>, Seq<u8>)>,
    ops: Seq<WriteOp>,
    q: Seq<u8>,
) -> Option<Seq<u8>>
    decreases ops.len(),
{
    if ops.len() == 0 {
        kget(pre, q)
    } else {
        op_lookup(lookup_after(pre, ops.drop_last(), q), ops.last(), q)
    }
}

/// Whether a feed record is a write of `v` under `k`.
pub open spec fn is_put(x: OptionalWriteOp, k: Seq<u8>, v: Seq<u8>) -> bool {
    x.inner matches Some(WriteOp::PutOp(p)) && p.inner_key@ == k && p.inner_value@ == v
}

/// Whether a feed record is a delete of `k`.
pub open spec fn is_delete(x: OptionalWriteOp, k: Seq<u8>) -> bool {
    x.inner matches Some(WriteOp::DeleteOp(d)) && d.inner_key@ == k
}

/// Whether a feed record is a range delete of `[begin, end)`.
pub open spec fn is_delete_range(x: OptionalWriteOp, begin: Seq<u8>, end: Seq<u8>) -> bool {
    x.inner matches Some(WriteOp::DeleteRangeOp(r)) && r.begin_inner_key@ == begin
        && r.end_inner_key@ == end
}

/// A one-operation batch changes each key as that operation alone says.
pub proof fn lemma_lookup_after_singleton(ops: Seq<WriteOp>)
    requires
        ops.len() == 1,
    ensures
        forall|pre: Seq<(Seq<u8>, Seq<u8>)>, q: Seq<u8>| #[trigger] lookup_after(pre, ops, q)
            == op_lookup(kget(pre, q), ops[0], q),
{
    assert(ops.drop_last() =~= Seq::<WriteOp>::empty());
    assert forall|pre: Seq<(Seq<u8>, Seq<u8>)>, q: Seq<u8>| #[trigger] lookup_after(pre, ops, q)
        == op_lookup(kget(pre, q), ops[0], q) by {
        assert(lookup_after(pre, ops.drop_last(), q) == kget(pre, q));
    }
}

/// What one key reads back as after a batch, starting from what it read
/// back as before it.
pub open spec fn ops_lookup(r0: Option<Seq<u8>>, ops: Seq<WriteOp>, q: Seq<u8>) -> Option<Seq<u8>>
    decreases ops.len(),
{
    if ops.len() == 0 {
        r0
    } else {
        op_lookup(ops_lookup(r0, ops.drop_last(), q), ops.last(), q)
    }
}

/// Applying a batch over contents reads back as folding its operations
/// over the key's old value.
pub proof fn lemma_lookup_after_is_ops_lookup(
    pre: Seq<(Seq<u8>, Seq<u8>)>,
    ops: Seq<WriteOp>,
    q: Seq<u8>,
)
    ensures
        lookup_after(pre, ops, q) == ops_lookup(kget(pre, q), ops, q),
    decreases ops.len(),
{
    if ops.len() > 0 {
        lemma_lookup_after_is_ops_lookup(pre, ops.drop_last(), q);
    }
}

/// Folding byte-for-byte equal operations gives the same reading.
pub proof fn lemma_ops_lookup_congruence(
    r0: Option<Seq<u8>>,
    a: Seq<WriteOp>,
    b: Seq<WriteOp>,
    q: Seq<u8>,
)
    requires
        a.len() == b.len(),
        forall|i: int| 0 <= i < a.len() ==> op_eq(#[trigger] a[i], b[i]),
    ensures
        ops_lookup(r0, a, q) == ops_lookup(r0, b, q),
    decreases a.len(),
{
    if a.len() > 0 {
        assert(forall|i: int|
            0 <= i < a.drop_last().len() ==> op_eq(#[trigger] a.drop_last()[i], b.drop_last()[i]));
        lemma_ops_lookup_congruence(r0, a.drop_last(), b.drop_last(), q);
        assert(op_eq(a.last(), b.last()));
    }
}

/// What one key reads back as after a list of batches is replayed in
/// order, starting from what it read back as before them.
pub open spec fn batches_lookup(
    r0: Option<Seq<u8>>,
    bs: Seq<WriteOpBatch>,
    q: Seq<u8>,
) -> Option<Seq<u8>>
    decreases bs.len(),
{
    if bs.len() == 0 {
        r0
    } else {
        ops_lookup(
            batches_lookup(r0, bs.drop_last(), q),
            crate::write_op::opt_ops(bs.last().write_ops@),
            q,
        )
    }
}

/// An upper bound on the operations a list of batches carries.
pub open spec fn batches_total_ops(bs: Seq<WriteOpBatch>) -> nat
    decreases bs.len(),
{
    if bs.len() == 0 {
        0
    } else {
        batches_total_ops(bs.drop_last()) + bs.last().write_ops@.len()
    }
}

/// What one key reads back as from a log alone, rebuilt over an empty
/// keyspace.
pub open spec fn log_reading(log: Seq<WriteOpBatch>, q: Seq<u8>) -> Option<Seq<u8>> {
    batches_lookup(None::<Seq<u8>>, log, q)
}

/// A store whose contents are exactly what its log rebuilds: true of
/// every store built from empty by committed batches alone.
pub open spec fn log_determined(s: Store) -> bool {
    forall|q: Seq<u8>| kget(s.contents(), q) == log_reading(s.log(), q)
}

/// An empty store with an empty log is log-determined.
pub proof fn lemma_log_determined_empty(s: Store)
    requires
        s.contents().len() == 0,
        s.log().len() == 0,
    ensures
        log_determined(s),
{
    assert forall|q: Seq<u8>| kget(s.contents(), q) == log_reading(s.log(), q) by {
        crate::entries::lemma_kget_absent(s.contents(), q);
    }
}

/// Committing a batch preserves log-determinedness: the contents move
/// exactly as the one appended log record says.
pub proof fn lemma_write_preserves_log_determined(pre: Store, post: Store, ops: Seq<WriteOp>)
    requires
        log_determined(pre),
        forall|q: Seq<u8>| kget(post.contents(), q) == lookup_after(pre.contents(), ops, q),
        ops.len() > 0 ==> post.log() == pre.log().push(post.log().last()) && batch_matches(
            post.log().last(),
            pre.next_sn,
            ops,
        ),
        ops.len() == 0 ==> post == pre,
    ensures
        log_determined(post),
{
    if ops.len() > 0 {
        let b = post.log().last();
        crate::write_op::lemma_opt_ops_of_matching(b.write_ops@, ops);
        assert forall|q: Seq<u8>| kget(post.contents(), q) == log_reading(post.log(), q) by {
            lemma_lookup_after_is_ops_lookup(pre.contents(), ops, q);
            assert(post.log().drop_last() =~= pre.log());
            assert(batches_lookup(None::<Seq<u8>>, post.log(), q) == ops_lookup(
                log_reading(pre.log(), q),
                crate::write_op::opt_ops(b.write_ops@),
                q,
            ));
            lemma_ops_lookup_congruence(
                log_reading(pre.log(), q),
                crate::write_op::opt_ops(b.write_ops@),
                ops,
                q,
            );
        }
    }
}

/// A feed from the beginning is the whole log: every committed batch
/// carries a sequence number above zero.
pub proof fn lemma_feed_since_zero(w: Seq<WriteOpBatch>)
    requires
        forall|i: int| 0 <= i < w.len() ==> (#[trigger] w[i].sn) >= 1,
    ensures
        wal_since(w, 0) == w,
    decreases w.len(),
{
    if w.len() > 0 {
        assert(forall|i: int| 0 <= i < w.drop_last().len() ==> (#[trigger] w.drop_last()[i].sn)
            >= 1);
        lemma_feed_since_zero(w.drop_last());
        assert(wal_since(w, 0) =~= w);
    }
}

/// Replaying byte-for-byte equal batches reads back identically.
pub proof fn lemma_batches_lookup_congruence(
    r0: Option<Seq<u8>>,
    a: Seq<WriteOpBatch>,
    b: Seq<WriteOpBatch>,
    q: Seq<u8>,
)
    requires
        a.len() == b.len(),
        forall|i: int| 0 <= i < a.len() ==> crate::write_op::batch_eq(#[trigger] a[i], b[i]),
    ensures
        batches_lookup(r0, a, q) == batches_lookup(r0, b, q),
    decreases a.len(),
{
    if a.len() > 0 {
        assert(forall|i: int|
            0 <= i < a.drop_last().len() ==> crate::write_op::batch_eq(
                #[trigger] a.drop_last()[i],
                b.drop_last()[i],
            ));
        lemma_batches_lookup_congruence(r0, a.drop_last(), b.drop_last(), q);
        assert(crate::write_op::batch_eq(a[a.len() - 1], b[b.len() - 1]));
        crate::write_op::lemma_opt_ops_congruence(
            a.last().write_ops@,
            b.last().write_ops@,
        );
        lemma_ops_lookup_congruence(
            batches_lookup(r0, a.drop_last(), q),
            crate::write_op::opt_ops(a.last().write_ops@),
            crate::write_op::opt_ops(b.last().write_ops@),
            q,
        );
    }
}

/// The capture-and-replay round trip: the full change feed of a
/// log-determined store, replayed in order over an empty keyspace,
/// reads back exactly as the source does at every key.
pub proof fn lemma_replay_reproduces(source: Store, batches: Seq<WriteOpBatch>, q: Seq<u8>)
    requires
        log_determined(source),
        forall|i: int| 0 <= i < source.log().len() ==> (#[trigger] source.log()[i].sn) >= 1,
        batches.len() == wal_since(source.log(), 0).len(),
        forall|i: int|
            0 <= i < batches.len() ==> crate::write_op::batch_eq(
                #[trigger] batches[i],
                wal_since(source.log(), 0)[i],
            ),
    ensures
        batches_lookup(None::<Seq<u8>>, batches, q) == kget(source.contents(), q),
{
    lemma_feed_since_zero(source.log());
    lemma_batches_lookup_congruence(None::<Seq<u8>>, batches, source.log(), q);
}

/// How many of the batches carry at least one operation: the number of
/// log records replaying them appends.
pub open spec fn count_nonempty(bs: Seq<WriteOpBatch>) -> nat
    decreases bs.len(),
{
    if bs.len() == 0 {
        0
    } else {
        count_nonempty(bs.drop_last()) + if crate::write_op::opt_ops(bs.last().write_ops@).len()
            > 0 {
            1nat
        } else {
            0nat
        }
    }
}

/// A two-operation batch changes each key as the two operations in
/// order say.
pub proof fn lemma_lookup_after2(ops: Seq<WriteOp>)
    requires
        ops.len() == 2,
    ensures
        forall|pre: Seq<(Seq<u8>, Seq<u8>)>, q: Seq<u8>| #[trigger] lookup_after(pre, ops, q)
            == op_lookup(op_lookup(kget(pre, q), ops[0], q), ops[1], q),
{
    assert forall|pre: Seq<(Seq<u8>, Seq<u8>)>, q: Seq<u8>| #[trigger] lookup_after(pre, ops, q)
        == op_lookup(op_lookup(kget(pre, q), ops[0], q), ops[1], q) by {
        let o1 = ops.drop_last();
        assert(o1.len() == 1 && o1[0] == ops[0]);
        assert(o1.drop_last() =~= Seq::<WriteOp>::empty());
        assert(lookup_after(pre, o1.drop_last(), q) == kget(pre, q));
        assert(lookup_after(pre, o1, q) == op_lookup(kget(pre, q), ops[0], q));
    }
}

/// A three-operation batch changes each key as the three operations in
/// order say.
pub proof fn lemma_lookup_after3(ops: Seq<WriteOp>)
    requires
        ops.len() == 3,
    ensures
        forall|pre: Seq<(Seq<u8>, Seq<u8>)>, q: Seq<u8>| #[trigger] lookup_after(pre, ops, q)
            == op_lookup(op_lookup(op_lookup(kget(pre, q), ops[0], q), ops[1], q), ops[2], q),
{
    assert forall|pre: Seq<(Seq<u8>, Seq<u8>)>, q: Seq<u8>| #[trigger] lookup_after(pre, ops, q)
        == op_lookup(op_lookup(op_lookup(kget(pre, q), ops[0], q), ops[1], q), ops[2], q) by {
        let o2 = ops.drop_last();
        let o1 = o2.drop_last();
        assert(o2.len() == 2 && o2[0] == ops[0] && o2[1] == ops[1]);
        assert(o1.len() == 1 && o1[0] == ops[0]);
        assert(o1.drop_last() =~= Seq::<WriteOp>::empty());
        assert(lookup_after(pre, o1.drop_last(), q) == kget(pre, q));
        assert(lookup_after(pre, o1, q) == op_lookup(kget(pre, q), ops[0], q));
        assert(lookup_after(pre, o2, q) == op_lookup(op_lookup(kget(pre, q), ops[0], q), ops[1], q));
    }
}

/// A four-operation batch changes each key as the four operations in
/// order say.
pub proof fn lemma_lookup_after4(ops: Seq<WriteOp>)
    requires
        ops.len() == 4,
    ensures
        forall|pre: Seq<(Seq<u8>, Seq<u8>)>, q: Seq<u8>| #[trigger] lookup_after(pre, ops, q)
            == op_lookup(
            op_lookup(op_lookup(op_lookup(kget(pre, q), ops[0], q), ops[1], q), ops[2], q),
            ops[3],
            q,
        ),
{
    assert forall|pre: Seq<(Seq<u8>, Seq<u8>)>, q: Seq<u8>| #[trigger] lookup_after(pre, ops, q)
        == op_lookup(
        op_lookup(op_lookup(op_lookup(kget(pre, q), ops[0], q), ops[1], q), ops[2], q),
        ops[3],
        q,
    ) by {
        let o3 = ops.drop_last();
        let o2 = o3.drop_last();
        let o1 = o2.drop_last();
        assert(o3.len() == 3 && o3[0] == ops[0] && o3[1] == ops[1] && o3[2] == ops[2]);
        assert(o2.len() == 2 && o2[0] == ops[0] && o2[1] == ops[1]);
        assert(o1.len() == 1 && o1[0] == ops[0]);
        assert(o1.drop_last() =~= Seq::<WriteOp>::empty());
        assert(lookup_after(pre, o1.drop_last(), q) == kget(pre, q));
        assert(lookup_after(pre, o1, q) == op_lookup(kget(pre, q), ops[0], q));
        assert(lookup_after(pre, o2, q) == op_lookup(op_lookup(kget(pre, q), ops[0], q), ops[1], q));
        assert(lookup_after(pre, o3, q) == op_lookup(
            op_lookup(op_lookup(kget(pre, q), ops[0], q), ops[1], q),
            ops[2],
            q,
        ));
    }
}

/// Whether a logged maybe-absent operation is exactly `op`.
pub open spec fn opt_matches(x: OptionalWriteOp, op: WriteOp) -> bool {
    match x.inner {
        Some(y) => op_eq(y, op),
        None => false,
    }
}

/// Whether a logged batch carries exactly `ops` under sequence number `sn`.
pub open spec fn batch_matches(b: WriteOpBatch, sn: u64, ops: Seq<WriteOp>) -> bool {
    &&& b.sn == sn
    &&& b.write_ops@.len() == ops.len()
    &&& forall|i: int| 0 <= i < ops.len() ==> opt_matches(#[trigger] b.write_ops@[i], ops[i])
}

/// The log records whose sequence number is above `sn`, in log order.
pub open spec fn wal_since(w: Seq<WriteOpBatch>, sn: u64) -> Seq<WriteOpBatch>
    decreases w.len(),
{
    if w.len() == 0 {
        w
    } else {
        let rest = wal_since(w.drop_last(), sn);
        if w.last().sn > sn {
            rest.push(w.last())
        } else {
            rest
        }
    }
}

/// The ordered key-value engine: the sorted keyspace, the write-ahead
/// log, and the next sequence number to hand out.
pub struct Store {
    pub entries: Vec<Entry>,
    pub wal: Vec<WriteOpBatch>,
    pub next_sn: u64,
}

impl Store {
    /// The keyspace contents.
    pub open spec fn contents(self) -> Seq<(Seq<u8>, Seq<u8>)> {
        entries_view(self.entries@)
    }

    /// The committed log.
    pub open spec fn log(self) -> Seq<WriteOpBatch> {
        self.wal@
    }

    /// The sequence number of the last committed batch.
    pub open spec fn spec_latest_sn(self) -> u64 {
        (self.next_sn - 1) as u64
    }

    /// Well-formed: keys strictly ascend, log sequence numbers strictly
    /// ascend and stay below the next number to hand out.
    pub open spec fn wf(self) -> bool {
        &&& sorted(self.contents())
        &&& self.next_sn >= 1
        &&& forall|i: int, j: int|
            0 <= i < j < self.wal@.len() ==> self.wal@[i].sn < self.wal@[j].sn
        &&& forall|i: int| 0 <= i < self.wal@.len() ==> 1 <= #[trigger] self.wal@[i].sn
            < self.next_sn
    }

    /// An empty store with no history.
    pub fn new() -> (r: Store)
        ensures
            r.wf(),
            r.contents().len() == 0,
            r.log().len() == 0,
            r.next_sn == 1,
            log_determined(r),
    {
        let r = Store { entries: Vec::new(), wal: Vec::new(), next_sn: 1 };
        proof {
            lemma_log_determined_empty(r);
        }
        r
    }

    /// Reads the value under `key`, if any.
    pub fn get(&self, key: &[u8]) -> (r: Option<Vec<u8>>)
        requires
            self.wf(),
        ensures
            match r {
                Some(val) => kget(self.contents(), key@) == Some(val@),
                None => kget(self.contents(), key@) == None::<Seq<u8>>,
            },
    {
        entries_get(&self.entries, key)
    }

    /// The sequence number of the last committed batch.
    pub fn latest_sn(&self) -> (r: u64)
        requires
            self.wf(),
        ensures
            r == self.spec_latest_sn(),
    {
        self.next_sn - 1
    }

    /// Commits `ops` as one atomic batch: applies them left to right,
    /// appends one log record holding them, and advances the sequence
    /// counter by the number of operations. An empty batch leaves the
    /// store untouched and the log without a record.
    pub fn write(&mut self, ops: Vec<WriteOp>) -> (sn: u64)
        requires
            old(self).wf(),
            ops@.len() <= u64::MAX - old(self).next_sn,
        ensures
            final(self).wf(),
            forall|q: Seq<u8>| kget(final(self).contents(), q) == lookup_after(
                old(self).contents(),
                ops@,
                q,
            ),
            ops@.len() > 0 ==> final(self).log().len() == old(self).log().len() + 1
                && final(self).log().last().sn == old(self).next_sn && batch_matches(
                final(self).log().last(),
                old(self).next_sn,
                ops@,
            ) && (forall|i: int|
                0 <= i < old(self).log().len() ==> final(self).log()[i] == old(self).log()[i])
                && final(self).next_sn == old(self).next_sn + ops@.len(),
            ops@.len() == 0 ==> *final(self) == *old(self),
            sn == old(self).next_sn,
    {
        let ghost pre = self.contents();
        let sn = self.next_sn;
        if ops.len() == 0 {
            return sn;
        }
        let mut logged: Vec<OptionalWriteOp> = Vec::new();
        let mut i: usize = 0;
        while i < ops.len()
            invariant
                0 <= i <= ops@.len(),
                logged@.len() == i,
                forall|j: int| 0 <= j < i ==> opt_matches(#[trigger] logged@[j], ops@[j]),
            decreases ops@.len() - i,
        {
            logged.push(OptionalWriteOp { inner: Some(crate::write_op::clone_op(&ops[i])) });
            i = i + 1;
        }
        let mut j: usize = 0;
        while j < ops.len()
            invariant
                0 <= j <= ops@.len(),
                sorted(entries_view(self.entries@)),
                forall|q: Seq<u8>| kget(entries_view(self.entries@), q) == lookup_after(
                    pre,
                    ops@.subrange(0, j as int),
                    q,
                ),
                self.wal == old(self).wal,
                self.next_sn == old(self).next_sn,
            decreases ops@.len() - j,
        {
            let ghost cur = entries_view(self.entries@);
            match &ops[j] {
                WriteOp::PutOp(p) => {
                    entries_put(&mut self.entries, p.inner_key.clone(), p.inner_value.clone());
                },
                WriteOp::DeleteOp(d) => {
                    entries_delete(&mut self.entries, d.inner_key.as_slice());
                },
                WriteOp::DeleteRangeOp(r) => {
                    entries_delete_range(
                        &mut self.entries,
                        r.begin_inner_key.as_slice(),
                        r.end_inner_key.as_slice(),
                    );
                },
                WriteOp::MergeOp(m) => {
                    entries_put(&mut self.entries, m.inner_key.clone(), m.inner_value.clone());
                },
            }
            proof {
                let nxt = entries_view(self.entries@);
                assert(ops@.subrange(0, j + 1).drop_last() =~= ops@.subrange(0, j as int));
                assert(ops@.subrange(0, j + 1).last() == ops@[j as int]);
                assert forall|q: Seq<u8>| kget(nxt, q) == lookup_after(
                    pre,
                    ops@.subrange(0, j + 1),
                    q,
                ) by {
                    assert(kget(nxt, q) == op_lookup(kget(cur, q), ops@[j as int], q));
                }
            }
            j = j + 1;
        }
        proof {
            assert(ops@.subrange(0, ops@.len() as int) =~= ops@);
        }
        self.wal.push(WriteOpBatch { sn, write_ops: logged });
        self.next_sn = self.next_sn + (ops.len() as u64);
        sn
    }

    /// Writes `value` under `key` as one single-operation batch.
    pub fn put(&mut self, key: Vec<u8>, value: Vec<u8>)
        requires
            old(self).wf(),
            old(self).next_sn < u64::MAX,
        ensures
            final(self).wf(),
            kget(final(self).contents(), key@) == Some(value@),
            forall|q: Seq<u8>| q != key@ ==> kget(final(self).contents(), q) == kget(
                old(self).contents(),
                q,
            ),
            final(self).log().len() == old(self).log().len() + 1,
            final(self).log().last().sn == old(self).next_sn,
            final(self).log().last().write_ops@.len() == 1,
            is_put(final(self).log().last().write_ops@[0], key@, value@),
            forall|i: int|
                0 <= i < old(self).log().len() ==> final(self).log()[i] == old(self).log()[i],
            final(self).next_sn == old(self).next_sn + 1,
    {
        let ghost k = key@;
        let ghost v = value@;
        let op = WriteOp::PutOp(crate::write_op::PutOp { inner_key: key, inner_value: value });
        let mut ops: Vec<WriteOp> = Vec::new();
        ops.push(op);
        let ghost opsv = ops@;
        self.write(ops);
        proof {
            lemma_lookup_after_singleton(opsv);
        }
    }

    /// Deletes the record under `key` as one single-operation batch.
    pub fn delete(&mut self, key: Vec<u8>)
        requires
            old(self).wf(),
            old(self).next_sn < u64::MAX,
        ensures
            final(self).wf(),
            kget(final(self).contents(), key@) == None::<Seq<u8>>,
            forall|q: Seq<u8>| q != key@ ==> kget(final(self).contents(), q) == kget(
                old(self).contents(),
                q,
            ),
            final(self).log().len() == old(self).log().len() + 1,
            final(self).log().last().sn == old(self).next_sn,
            final(self).log().last().write_ops@.len() == 1,
            is_delete(final(self).log().last().write_ops@[0], key@),
            forall|i: int|
                0 <= i < old(self).log().len() ==> final(self).log()[i] == old(self).log()[i],
            final(self).next_sn == old(self).next_sn + 1,
    {
        let op = WriteOp::DeleteOp(crate::write_op::DeleteOp { inner_key: key });
        let mut ops: Vec<WriteOp> = Vec::new();
        ops.push(op);
        let ghost opsv = ops@;
        self.write(ops);
        proof {
            lemma_lookup_after_singleton(opsv);
        }
    }

    /// Deletes every record in `[begin, end)` as one single-operation
    /// batch.
    pub fn delete_range(&mut self, begin: Vec<u8>, end: Vec<u8>)
        requires
            old(self).wf(),
            old(self).next_sn < u64::MAX,
        ensures
            final(self).wf(),
            forall|q: Seq<u8>| in_range(q, begin@, end@) ==> kget(final(self).contents(), q)
                == None::<Seq<u8>>,
            forall|q: Seq<u8>| !in_range(q, begin@, end@) ==> kget(final(self).contents(), q)
                == kget(old(self).contents(), q),
            final(self).log().len() == old(self).log().len() + 1,
            final(self).log().last().sn == old(self).next_sn,
            final(self).log().last().write_ops@.len() == 1,
            is_delete_range(final(self).log().last().write_ops@[0], begin@, end@),
            forall|i: int|
                0 <= i < old(self).log().len() ==> final(self).log()[i] == old(self).log()[i],
            final(self).next_sn == old(self).next_sn + 1,
    {
        let op = WriteOp::DeleteRangeOp(
            crate::write_op::DeleteRangeOp { begin_inner_key: begin, end_inner_key: end },
        );
        let mut ops: Vec<WriteOp> = Vec::new();
        ops.push(op);
        let ghost opsv = ops@;
        self.write(ops);
        proof {
            lemma_lookup_after_singleton(opsv);
        }
    }

    /// The committed batches past `sn`, oldest first: the change feed.
    pub fn updates_since(&self, sn: u64) -> (r: Vec<WriteOpBatch>)
        requires
            self.wf(),
        ensures
            r@.len() == wal_since(self.log(), sn).len(),
            forall|i: int| 0 <= i < r@.len() ==> batch_eq(r@[i], wal_since(self.log(), sn)[i]),
    {
        let mut r: Vec<WriteOpBatch> = Vec::new();
        let mut i: usize = 0;
        while i < self.wal.len()
            invariant
                0 <= i <= self.wal@.len(),
                r@.len() == wal_since(self.wal@.subrange(0, i as int), sn).len(),
                forall|x: int|
                    0 <= x < r@.len() ==> batch_eq(
                        r@[x],
                        wal_since(self.wal@.subrange(0, i as int), sn)[x],
                    ),
            decreases self.wal@.len() - i,
        {
            let ghost wpre = wal_since(self.wal@.subrange(0, i as int), sn);
            proof {
                assert(self.wal@.subrange(0, i + 1).drop_last() =~= self.wal@.subrange(0, i as int));
                assert(self.wal@.subrange(0, i + 1).last() == self.wal@[i as int]);
            }
            if self.wal[i].sn > sn {
                r.push(crate::write_op::clone_batch(&self.wal[i]));
            }
            i = i + 1;
        }
        proof {
            assert(self.wal@.subrange(0, self.wal@.len() as int) =~= self.wal@);
        }
        r
    }
}

/// The change feed reports batches in strictly ascending sequence-number
/// order whenever the log itself ascends.
pub proof fn lemma_wal_since_ascending(w: Seq<WriteOpBatch>, sn: u64)
    requires
        forall|i: int, j: int| 0 <= i < j < w.len() ==> w[i].sn < w[j].sn,
    ensures
        forall|i: int, j: int|
            0 <= i < j < wal_since(w, sn).len() ==> wal_since(w, sn)[i].sn < wal_since(w, sn)[j].sn,
        forall|i: int| 0 <= i < wal_since(w, sn).len() ==> #[trigger] wal_since(w, sn)[i].sn > sn,
    decreases w.len(),
{
    if w.len() > 0 {
        let wd = w.drop_last();
        assert(forall|i: int, j: int| 0 <= i < j < wd.len() ==> wd[i].sn < wd[j].sn);
        lemma_wal_since_ascending(wd, sn);
        let rest = wal_since(wd, sn);
        assert forall|i: int| 0 <= i < rest.len() implies #[trigger] rest[i].sn
            < w.last().sn by {
            lemma_wal_since_member(wd, sn, i);
        }
    }
}

/// Every batch the feed reports is one of the log's records, so a feed
/// never invents, reorders or splits an atomic batch.
pub proof fn lemma_wal_since_member(w: Seq<WriteOpBatch>, sn: u64, i: int)
    requires
        0 <= i < wal_since(w, sn).len(),
    ensures
        exists|j: int| 0 <= j < w.len() && w[j] == wal_since(w, sn)[i],
    decreases w.len(),
{
    if w.len() > 0 {
        let wd = w.drop_last();
        let rest = wal_since(wd, sn);
        if i < rest.len() {
            lemma_wal_since_member(wd, sn, i);
            let j = choose|j: int| 0 <= j < wd.len() && wd[j] == wal_since(wd, sn)[i];
            assert(w[j] == wal_since(w, sn)[i]);
        } else {
            assert(w[w.len() - 1] == wal_since(w, sn)[i]);
        }
    }
}

} // verus!
