//! Identifiers, the records of the txns shard, and what a log of them means.

use vstd::prelude::*;

verus! {

/// Identifies one data shard of a store.
#[derive(Clone, Copy, Debug, PartialEq, Eq, Structural)]
pub struct ShardId {
    pub index: usize,
}

/// An opaque, transmittable reference to an immutable batch written to a data shard.
#[derive(Clone, Copy, Debug, PartialEq, Eq, Structural)]
pub struct BatchRef {
    /// Position of the batch in the store's batch pool.
    pub batch: usize,
    /// The data shard the batch was written for.
    pub shard: ShardId,
}

/// The unit of record in the txns shard.
#[derive(Clone, Copy, Debug, PartialEq, Eq, Structural)]
pub enum TxnsEntry {
    /// The data shard takes part in transactions from the record's timestamp on.
    Register(ShardId),
    /// The batch belongs to the data shard's contents at the record's timestamp.
    Append(BatchRef),
}

/// A record of the txns shard: an entry, its timestamp and its multiplicity
/// (+1 to add it, -1 to retract it).
#[derive(Clone, Copy, Debug, PartialEq, Eq, Structural)]
pub struct TxnsRecord {
    pub entry: TxnsEntry,
    pub ts: u64,
    pub diff: i64,
}

/// A staged or stored update: an encoded key and value with a signed multiplicity.
#[derive(Clone, Debug, PartialEq, Eq)]
pub struct Update {
    pub key: String,
    pub val: String,
    pub diff: i64,
}

impl Update {
    pub fn copy(&self) -> (r: Update)
        ensures
            r == *self,
    {
        Update { key: self.key.clone(), val: self.val.clone(), diff: self.diff }
    }
}

/// Copies a list of updates, element by element.
pub fn copy_updates(v: &Vec<Update>) -> (r: Vec<Update>)
    ensures
        r@ == v@,
{
    let mut r: Vec<Update> = Vec::new();
    let mut i: usize = 0;
    while i < v.len()
        invariant
            i <= v.len(),
            r@ == v@.take(i as int),
        decreases v.len() - i,
    {
        r.push(v[i].copy());
        i = i + 1;
        assert(r@ =~= v@.take(i as int));
    }
    assert(v@.take(v.len() as int) =~= v@);
    r
}

/// Net multiplicity of the `Append(b)` records of a log.
pub open spec fn append_count(log: Seq<TxnsRecord>, b: BatchRef) -> int
    decreases log.len(),
{
    if log.len() == 0 {
        0
    } else {
        append_count(log.drop_last(), b) + if log.last().entry == TxnsEntry::Append(b) {
            log.last().diff as int
        } else {
            0
        }
    }
}

/// A record may follow `prefix`: an append adds a batch that is not outstanding,
/// a retraction removes one that is, a registration is added once.
pub open spec fn record_ok(prefix: Seq<TxnsRecord>, r: TxnsRecord) -> bool {
    match r.entry {
        TxnsEntry::Append(b) => (r.diff == 1 && append_count(prefix, b) == 0) || (r.diff == -1
            && append_count(prefix, b) == 1),
        TxnsEntry::Register(_) => r.diff == 1,
    }
}

/// Every retraction in the log matches a prior, still outstanding append, and
/// no batch is appended while it is outstanding.
pub open spec fn no_double_retraction(log: Seq<TxnsRecord>) -> bool {
    forall|i: int| 0 <= i < log.len() ==> record_ok(#[trigger] log.take(i), log[i])
}

/// The timestamp of the first registration of `s` in the log.
pub open spec fn registered_at(log: Seq<TxnsRecord>, s: ShardId) -> Option<u64>
    decreases log.len(),
{
    if log.len() == 0 {
        None
    } else {
        match registered_at(log.drop_last(), s) {
            Some(t) => Some(t),
            None => if log.last().entry == TxnsEntry::Register(s) {
                Some(log.last().ts)
            } else {
                None
            },
        }
    }
}

/// `s` was registered in the log at a timestamp before `ts`.
pub open spec fn registered_before(log: Seq<TxnsRecord>, s: ShardId, ts: u64) -> bool {
    match registered_at(log, s) {
        Some(t) => t < ts,
        None => false,
    }
}

/// A batch that was appended and not yet retracted, with its commit timestamp.
#[derive(Clone, Copy, Debug, PartialEq, Eq, Structural)]
pub struct UnappliedBatch {
    pub batch: BatchRef,
    pub ts: u64,
}

/// Record `i` of the log appends a batch that is still outstanding at its end.
pub open spec fn outstanding_at(log: Seq<TxnsRecord>, i: int) -> bool {
    &&& log[i].diff == 1
    &&& log[i].entry is Append
    &&& append_count(log, log[i].entry->Append_0) == 1
}

/// The outstanding appends among the first `n` records, in log order.
pub open spec fn unapplied_upto(log: Seq<TxnsRecord>, n: int) -> Seq<UnappliedBatch>
    decreases n,
{
    if n <= 0 {
        Seq::empty()
    } else if outstanding_at(log, n - 1) {
        unapplied_upto(log, n - 1).push(
            UnappliedBatch { batch: log[n - 1].entry->Append_0, ts: log[n - 1].ts },
        )
    } else {
        unapplied_upto(log, n - 1)
    }
}

/// The outstanding appends of the log, in log order.
pub open spec fn unapplied(log: Seq<TxnsRecord>) -> Seq<UnappliedBatch> {
    unapplied_upto(log, log.len() as int)
}

/// The retraction records, at `ts`, for those of `rs` that are outstanding in `log`.
pub open spec fn retraction_records(log: Seq<TxnsRecord>, rs: Seq<BatchRef>, ts: u64) -> Seq<
    TxnsRecord,
>
    decreases rs.len(),
{
    if rs.len() == 0 {
        Seq::empty()
    } else if append_count(log, rs.last()) == 1 {
        retraction_records(log, rs.drop_last(), ts).push(
            TxnsRecord { entry: TxnsEntry::Append(rs.last()), ts, diff: -1i64 },
        )
    } else {
        retraction_records(log, rs.drop_last(), ts)
    }
}

pub proof fn lemma_append_count_concat(a: Seq<TxnsRecord>, c: Seq<TxnsRecord>, b: BatchRef)
    ensures
        append_count(a + c, b) == append_count(a, b) + append_count(c, b),
    decreases c.len(),
{
    if c.len() == 0 {
        assert(a + c =~= a);
    } else {
        assert((a + c).drop_last() =~= a + c.drop_last());
        lemma_append_count_concat(a, c.drop_last(), b);
    }
}

/// A log without any `Append(b)` record has no multiplicity for `b`.
pub proof fn lemma_append_count_absent(log: Seq<TxnsRecord>, b: BatchRef)
    requires
        forall|i: int| 0 <= i < log.len() ==> log[i].entry != TxnsEntry::Append(b),
    ensures
        append_count(log, b) == 0,
    decreases log.len(),
{
    if log.len() > 0 {
        lemma_append_count_absent(log.drop_last(), b);
    }
}

/// A batch with positive multiplicity has an append record in the log.
pub proof fn lemma_append_count_witness(log: Seq<TxnsRecord>, b: BatchRef)
    requires
        append_count(log, b) > 0,
        forall|i: int| 0 <= i < log.len() ==> (#[trigger] log[i]).diff == 1 || log[i].diff == -1,
    ensures
        exists|i: int|
            0 <= i < log.len() && (#[trigger] log[i]).entry == TxnsEntry::Append(b) && log[i].diff
                == 1,
    decreases log.len(),
{
    if log.len() > 0 {
        let last = log.len() - 1;
        if log[last].entry == TxnsEntry::Append(b) && log[last].diff == 1 {
        } else {
            assert forall|i: int| 0 <= i < log.drop_last().len() implies (
            #[trigger] log.drop_last()[i]).diff == 1 || log.drop_last()[i].diff == -1 by {
                assert(log.drop_last()[i] == log[i]);
            }
            lemma_append_count_witness(log.drop_last(), b);
            let i = choose|i: int|
                0 <= i < log.drop_last().len() && (#[trigger] log.drop_last()[i]).entry
                    == TxnsEntry::Append(b) && log.drop_last()[i].diff == 1;
            assert(log[i] == log.drop_last()[i]);
        }
    }
}

/// A registration in the log has a register record.
pub proof fn lemma_registered_witness(log: Seq<TxnsRecord>, s: ShardId)
    requires
        registered_at(log, s) is Some,
    ensures
        exists|i: int|
            0 <= i < log.len() && (#[trigger] log[i]).entry == TxnsEntry::Register(s) && log[i].ts
                == registered_at(log, s)->Some_0,
    decreases log.len(),
{
    if registered_at(log.drop_last(), s) is Some {
        lemma_registered_witness(log.drop_last(), s);
        let i = choose|i: int|
            0 <= i < log.drop_last().len() && (#[trigger] log.drop_last()[i]).entry
                == TxnsEntry::Register(s) && log.drop_last()[i].ts == registered_at(
                log.drop_last(),
                s,
            )->Some_0;
        assert(log[i] == log.drop_last()[i]);
    } else {
        assert(log[log.len() - 1] == log.last());
    }
}

/// Extending a log keeps an earlier registration.
pub proof fn lemma_registered_extend(a: Seq<TxnsRecord>, c: Seq<TxnsRecord>, s: ShardId)
    requires
        registered_at(a, s) is Some,
    ensures
        registered_at(a + c, s) == registered_at(a, s),
    decreases c.len(),
{
    if c.len() == 0 {
        assert(a + c =~= a);
    } else {
        assert((a + c).drop_last() =~= a + c.drop_last());
        lemma_registered_extend(a, c.drop_last(), s);
    }
}

} // verus!
