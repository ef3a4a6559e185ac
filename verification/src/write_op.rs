//! The primitive write operations that make up an atomic batch, and the
//! batch form under which the change feed reports them.

use vstd::prelude::*;

verus! {

/// Writes `inner_value` under `inner_key`.
#[derive(Debug, Clone, PartialEq)]
pub struct PutOp {
    pub inner_key: Vec<u8>,
    pub inner_value: Vec<u8>,
}

/// Deletes the record under `inner_key`.
#[derive(Debug, Clone, PartialEq)]
pub struct DeleteOp {
    pub inner_key: Vec<u8>,
}

/// Deletes every record in `[begin_inner_key, end_inner_key)`.
#[derive(Debug, Clone, PartialEq)]
pub struct DeleteRangeOp {
    pub begin_inner_key: Vec<u8>,
    pub end_inner_key: Vec<u8>,
}

/// Merges `inner_value` into the record under `inner_key`. Without a
/// merge operator the store folds a merge into a plain write.
#[derive(Debug, Clone, PartialEq)]
pub struct MergeOp {
    pub inner_key: Vec<u8>,
    pub inner_value: Vec<u8>,
}

/// One primitive write operation.
#[derive(Debug, Clone, PartialEq)]
pub enum WriteOp {
    PutOp(PutOp),
    DeleteOp(DeleteOp),
    DeleteRangeOp(DeleteRangeOp),
    MergeOp(MergeOp),
}

/// A write operation that may be absent, as a feed record reports it.
#[derive(Debug, Clone, PartialEq)]
pub struct OptionalWriteOp {
    pub inner: Option<WriteOp>,
}

/// The operations committed together under one sequence number: the
/// unit the change feed reports and replay re-applies.
#[derive(Debug, Clone, PartialEq)]
pub struct WriteOpBatch {
    pub sn: u64,
    pub write_ops: Vec<OptionalWriteOp>,
}

impl WriteOpBatch {
    /// An empty batch, not yet committed under any sequence number.
    pub fn new() -> (r: WriteOpBatch)
        ensures
            r.sn == 0,
            r.write_ops@.len() == 0,
    {
        WriteOpBatch { sn: 0, write_ops: Vec::new() }
    }
}

/// Whether two operations carry the same kind and the same bytes.
pub open spec fn op_eq(a: WriteOp, b: WriteOp) -> bool {
    match (a, b) {
        (WriteOp::PutOp(x), WriteOp::PutOp(y)) => x.inner_key@ == y.inner_key@ && x.inner_value@
            == y.inner_value@,
        (WriteOp::DeleteOp(x), WriteOp::DeleteOp(y)) => x.inner_key@ == y.inner_key@,
        (WriteOp::DeleteRangeOp(x), WriteOp::DeleteRangeOp(y)) => x.begin_inner_key@
            == y.begin_inner_key@ && x.end_inner_key@ == y.end_inner_key@,
        (WriteOp::MergeOp(x), WriteOp::MergeOp(y)) => x.inner_key@ == y.inner_key@ && x.inner_value@
            == y.inner_value@,
        _ => false,
    }
}

/// The present operations of a feed record list, in order.
pub open spec fn opt_ops(s: Seq<OptionalWriteOp>) -> Seq<WriteOp>
    decreases s.len(),
{
    if s.len() == 0 {
        Seq::empty()
    } else {
        let rest = opt_ops(s.drop_last());
        match s.last().inner {
            Some(op) => rest.push(op),
            None => rest,
        }
    }
}

/// Record lists that agree record for record report byte-for-byte
/// equal operations.
pub proof fn lemma_opt_ops_congruence(a: Seq<OptionalWriteOp>, b: Seq<OptionalWriteOp>)
    requires
        a.len() == b.len(),
        forall|i: int| 0 <= i < a.len() ==> opt_op_eq(#[trigger] a[i], b[i]),
    ensures
        opt_ops(a).len() == opt_ops(b).len(),
        forall|i: int| 0 <= i < opt_ops(a).len() ==> op_eq(#[trigger] opt_ops(a)[i], opt_ops(b)[i]),
    decreases a.len(),
{
    if a.len() > 0 {
        assert(opt_op_eq(a[a.len() - 1], b[b.len() - 1]));
        assert(forall|i: int|
            0 <= i < a.drop_last().len() ==> opt_op_eq(
                #[trigger] a.drop_last()[i],
                b.drop_last()[i],
            ));
        lemma_opt_ops_congruence(a.drop_last(), b.drop_last());
    }
}

/// A record list whose records each hold exactly the matching operation
/// reports exactly those operations.
pub proof fn lemma_opt_ops_of_matching(s: Seq<OptionalWriteOp>, ops: Seq<WriteOp>)
    requires
        s.len() == ops.len(),
        forall|i: int|
            0 <= i < ops.len() ==> match (#[trigger] s[i]).inner {
                Some(x) => op_eq(x, ops[i]),
                None => false,
            },
    ensures
        opt_ops(s).len() == ops.len(),
        forall|i: int| 0 <= i < ops.len() ==> op_eq(#[trigger] opt_ops(s)[i], ops[i]),
    decreases s.len(),
{
    if s.len() > 0 {
        assert(s[s.len() - 1].inner is Some);
        assert(forall|i: int|
            0 <= i < s.drop_last().len() ==> match (#[trigger] s.drop_last()[i]).inner {
                Some(x) => op_eq(x, ops.drop_last()[i]),
                None => false,
            });
        lemma_opt_ops_of_matching(s.drop_last(), ops.drop_last());
        assert(forall|i: int|
            0 <= i < s.drop_last().len() ==> op_eq(
                #[trigger] opt_ops(s.drop_last())[i],
                ops.drop_last()[i],
            ));
    }
}

/// A record list never reports more operations than records.
pub proof fn lemma_opt_ops_len(s: Seq<OptionalWriteOp>)
    ensures
        opt_ops(s).len() <= s.len(),
    decreases s.len(),
{
    if s.len() > 0 {
        lemma_opt_ops_len(s.drop_last());
    }
}

/// Takes the present operations out of a batch, in order.
pub fn batch_to_ops(b: &WriteOpBatch) -> (r: Vec<WriteOp>)
    ensures
        r@.len() == opt_ops(b.write_ops@).len(),
        forall|i: int| 0 <= i < r@.len() ==> op_eq(#[trigger] r@[i], opt_ops(b.write_ops@)[i]),
{
    let mut r: Vec<WriteOp> = Vec::new();
    let mut i: usize = 0;
    while i < b.write_ops.len()
        invariant
            0 <= i <= b.write_ops@.len(),
            r@.len() == opt_ops(b.write_ops@.subrange(0, i as int)).len(),
            forall|j: int|
                0 <= j < r@.len() ==> op_eq(
                    #[trigger] r@[j],
                    opt_ops(b.write_ops@.subrange(0, i as int))[j],
                ),
        decreases b.write_ops@.len() - i,
    {
        proof {
            assert(b.write_ops@.subrange(0, i + 1).drop_last() =~= b.write_ops@.subrange(
                0,
                i as int,
            ));
            assert(b.write_ops@.subrange(0, i + 1).last() == b.write_ops@[i as int]);
        }
        match &b.write_ops[i].inner {
            Some(op) => {
                r.push(clone_op(op));
            },
            None => {},
        }
        i = i + 1;
    }
    proof {
        assert(b.write_ops@.subrange(0, b.write_ops@.len() as int) =~= b.write_ops@);
    }
    r
}

/// The batches of a feed, handed out oldest first.
pub struct WriteOpBatchIterator {
    pub batches: Vec<WriteOpBatch>,
    pub pos: usize,
}

impl WriteOpBatchIterator {
    /// A feed over the given batches, oldest first.
    pub fn new(batches: Vec<WriteOpBatch>) -> (r: WriteOpBatchIterator)
        ensures
            r.batches == batches,
            r.pos == 0,
    {
        WriteOpBatchIterator { batches, pos: 0 }
    }

    /// The next batch of the feed, or nothing at its end.
    pub fn next(&mut self) -> (r: Option<WriteOpBatch>)
        requires
            old(self).pos <= old(self).batches@.len(),
        ensures
            final(self).batches == old(self).batches,
            old(self).pos < old(self).batches@.len() ==> ({
                &&& r matches Some(b)
                &&& batch_eq(b, old(self).batches@[old(self).pos as int])
                &&& final(self).pos == old(self).pos + 1
            }),
            old(self).pos >= old(self).batches@.len() ==> r is None && final(self).pos == old(
                self,
            ).pos,
    {
        if self.pos < self.batches.len() {
            let b = clone_batch(&self.batches[self.pos]);
            self.pos = self.pos + 1;
            Some(b)
        } else {
            None
        }
    }
}

/// Whether two maybe-absent operations agree.
pub open spec fn opt_op_eq(a: OptionalWriteOp, b: OptionalWriteOp) -> bool {
    match (a.inner, b.inner) {
        (Some(x), Some(y)) => op_eq(x, y),
        (None, None) => true,
        _ => false,
    }
}

/// Whether two batches carry the same sequence number and operations.
pub open spec fn batch_eq(a: WriteOpBatch, b: WriteOpBatch) -> bool {
    &&& a.sn == b.sn
    &&& a.write_ops@.len() == b.write_ops@.len()
    &&& forall|i: int|
        0 <= i < a.write_ops@.len() ==> opt_op_eq(#[trigger] a.write_ops@[i], b.write_ops@[i])
}

/// Copies one operation, byte for byte.
pub fn clone_op(op: &WriteOp) -> (r: WriteOp)
    ensures
        op_eq(r, *op),
{
    match op {
        WriteOp::PutOp(x) => WriteOp::PutOp(
            PutOp { inner_key: x.inner_key.clone(), inner_value: x.inner_value.clone() },
        ),
        WriteOp::DeleteOp(x) => WriteOp::DeleteOp(DeleteOp { inner_key: x.inner_key.clone() }),
        WriteOp::DeleteRangeOp(x) => WriteOp::DeleteRangeOp(
            DeleteRangeOp {
                begin_inner_key: x.begin_inner_key.clone(),
                end_inner_key: x.end_inner_key.clone(),
            },
        ),
        WriteOp::MergeOp(x) => WriteOp::MergeOp(
            MergeOp { inner_key: x.inner_key.clone(), inner_value: x.inner_value.clone() },
        ),
    }
}

/// Copies one batch, byte for byte.
pub fn clone_batch(b: &WriteOpBatch) -> (r: WriteOpBatch)
    ensures
        batch_eq(r, *b),
{
    let mut ops: Vec<OptionalWriteOp> = Vec::new();
    let mut i: usize = 0;
    while i < b.write_ops.len()
        invariant
            0 <= i <= b.write_ops@.len(),
            ops@.len() == i,
            forall|j: int| 0 <= j < i ==> opt_op_eq(#[trigger] ops@[j], b.write_ops@[j]),
        decreases b.write_ops@.len() - i,
    {
        let o = match &b.write_ops[i].inner {
            Some(op) => OptionalWriteOp { inner: Some(clone_op(op)) },
            None => OptionalWriteOp { inner: None },
        };
        ops.push(o);
        i = i + 1;
    }
    WriteOpBatch { sn: b.sn, write_ops: ops }
}

} // verus!
