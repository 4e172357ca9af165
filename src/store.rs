//! An in-memory shard store: one txns shard guarded by compare-and-append,
//! data shards with a published frontier, and a pool of immutable batches.

use vstd::prelude::*;
use crate::entry::{
    no_double_retraction, record_ok, ShardId, TxnsEntry, TxnsRecord, UnappliedBatch, Update,
};

verus! {

/// An update of a data shard, stamped with the timestamp it holds at.
#[derive(Clone, Debug, PartialEq, Eq)]
pub struct DataUpdate {
    pub ts: u64,
    pub update: Update,
}

/// What a batch of the pool holds.
pub struct BatchView {
    pub shard: ShardId,
    pub ts: u64,
    pub updates: Seq<Update>,
    pub live: bool,
}

/// What a data shard holds: its frontier (reads below it are settled) and its
/// contents in the order they were applied.
pub struct DataShardView {
    pub upper: u64,
    pub contents: Seq<DataUpdate>,
}

struct Batch {
    shard: ShardId,
    ts: u64,
    updates: Vec<Update>,
    live: bool,
}

struct DataShard {
    upper: u64,
    contents: Vec<DataUpdate>,
}

/// The durable state that transactions coordinate over.
pub struct ShardStore {
    txns_upper: u64,
    txns_log: Vec<TxnsRecord>,
    datas: Vec<DataShard>,
    batches: Vec<Batch>,
}

/// The updates of a batch stamped with `ts`.
pub open spec fn stamp(us: Seq<Update>, ts: u64) -> Seq<DataUpdate> {
    us.map_values(|u: Update| DataUpdate { ts, update: u })
}

/// The data shards after applying one appended batch: if the shard's frontier has
/// not passed the batch's timestamp, the batch's updates join the shard and the
/// frontier moves just past it; otherwise it was applied already.
pub open spec fn apply_one(
    datas: Seq<DataShardView>,
    batches: Seq<BatchView>,
    u: UnappliedBatch,
) -> Seq<DataShardView> {
    let s = u.batch.shard.index as int;
    if datas[s].upper <= u.ts {
        datas.update(
            s,
            DataShardView {
                upper: (u.ts + 1) as u64,
                contents: datas[s].contents + stamp(batches[u.batch.batch as int].updates, u.ts),
            },
        )
    } else {
        datas
    }
}

/// The data shards after applying the batches of `us` in order.
pub open spec fn apply_all(
    datas: Seq<DataShardView>,
    batches: Seq<BatchView>,
    us: Seq<UnappliedBatch>,
) -> Seq<DataShardView>
    decreases us.len(),
{
    if us.len() == 0 {
        datas
    } else {
        apply_one(apply_all(datas, batches, us.drop_last()), batches, us.last())
    }
}

/// A record's references point where they must.
pub open spec fn record_refs_ok(
    r: TxnsRecord,
    datas: Seq<DataShardView>,
    batches: Seq<BatchView>,
) -> bool {
    &&& (r.diff == 1 || r.diff == -1)
    &&& match r.entry {
        TxnsEntry::Register(s) => s.index < datas.len(),
        TxnsEntry::Append(b) => {
            &&& b.batch < batches.len()
            &&& batches[b.batch as int].live
            &&& batches[b.batch as int].shard == b.shard
            &&& b.shard.index < datas.len()
            &&& (r.diff == 1 ==> batches[b.batch as int].ts == r.ts)
        },
    }
}

/// The invariant of a store's txns shard.
pub open spec fn log_wf(
    upper: u64,
    log: Seq<TxnsRecord>,
    datas: Seq<DataShardView>,
    batches: Seq<BatchView>,
) -> bool {
    &&& forall|i: int| 0 <= i < log.len() ==> (#[trigger] log[i]).ts < upper
    &&& forall|i: int, j: int| 0 <= i <= j < log.len() ==> (#[trigger] log[i]).ts <= (
    #[trigger] log[j]).ts
    &&& no_double_retraction(log)
    &&& forall|i: int| 0 <= i < log.len() ==> record_refs_ok(#[trigger] log[i], datas, batches)
}

/// Records that a commit may append to `log` at `ts`: each one may follow the
/// log and the records before it, and each refers where it must.
pub open spec fn extension_ok(
    log: Seq<TxnsRecord>,
    recs: Seq<TxnsRecord>,
    ts: u64,
    datas: Seq<DataShardView>,
    batches: Seq<BatchView>,
) -> bool {
    forall|j: int|
        0 <= j < recs.len() ==> {
            &&& (#[trigger] recs[j]).ts == ts
            &&& record_ok(log + recs.take(j), recs[j])
            &&& record_refs_ok(recs[j], datas, batches)
        }
}

impl ShardStore {
    pub closed spec fn spec_upper(&self) -> u64 {
        self.txns_upper
    }

    pub closed spec fn spec_log(&self) -> Seq<TxnsRecord> {
        self.txns_log@
    }

    pub closed spec fn spec_datas(&self) -> Seq<DataShardView> {
        self.datas@.map_values(|d: DataShard| DataShardView { upper: d.upper, contents: d.contents@ })
    }

    pub closed spec fn spec_batches(&self) -> Seq<BatchView> {
        self.batches@.map_values(
            |b: Batch| BatchView { shard: b.shard, ts: b.ts, updates: b.updates@, live: b.live },
        )
    }

    pub open spec fn wf(&self) -> bool {
        log_wf(self.spec_upper(), self.spec_log(), self.spec_datas(), self.spec_batches())
    }

    /// `later` grew from `self`: the log only got longer, with records at or past
    /// the old frontier, and no shard or batch went away.
    pub open spec fn advances_to(&self, later: &ShardStore) -> bool {
        &&& self.spec_log().is_prefix_of(later.spec_log())
        &&& forall|i: int|
            self.spec_log().len() <= i < later.spec_log().len() ==> (#[trigger] later.spec_log()[i]).ts
                >= self.spec_upper()
        &&& self.spec_upper() <= later.spec_upper()
        &&& self.spec_datas().len() <= later.spec_datas().len()
        &&& self.spec_batches().len() <= later.spec_batches().len()
    }

    /// An empty store: no data shards, an empty txns shard at frontier 0.
    pub fn new() -> (r: ShardStore)
        ensures
            r.wf(),
            r.spec_upper() == 0,
            r.spec_log().len() == 0,
            r.spec_datas().len() == 0,
            r.spec_batches().len() == 0,
    {
        ShardStore { txns_upper: 0, txns_log: Vec::new(), datas: Vec::new(), batches: Vec::new() }
    }

    /// The txns shard's frontier: the least timestamp still open for a commit.
    pub fn txns_upper(&self) -> (r: u64)
        ensures
            r == self.spec_upper(),
    {
        self.txns_upper
    }

    pub fn log_len(&self) -> (r: usize)
        ensures
            r == self.spec_log().len(),
    {
        self.txns_log.len()
    }

    pub fn log_record(&self, i: usize) -> (r: TxnsRecord)
        requires
            i < self.spec_log().len(),
        ensures
            r == self.spec_log()[i as int],
    {
        self.txns_log[i]
    }

    pub fn num_data_shards(&self) -> (r: usize)
        ensures
            r == self.spec_datas().len(),
    {
        self.datas.len()
    }

    pub fn num_batches(&self) -> (r: usize)
        ensures
            r == self.spec_batches().len(),
    {
        self.batches.len()
    }

    /// The published frontier of a data shard.
    pub fn data_upper(&self, s: ShardId) -> (r: u64)
        requires
            s.index < self.spec_datas().len(),
        ensures
            r == self.spec_datas()[s.index as int].upper,
    {
        self.datas[s.index].upper
    }

    /// The contents of a data shard with timestamps at or before `as_of`, in order.
    pub fn data_contents_le(&self, s: ShardId, as_of: u64) -> (r: Vec<Update>)
        requires
            s.index < self.spec_datas().len(),
        ensures
            r@ == contents_le(self.spec_datas()[s.index as int].contents, as_of),
    {
        let c = &self.datas[s.index].contents;
        assert(c@ == self.spec_datas()[s.index as int].contents);
        let mut r: Vec<Update> = Vec::new();
        let mut i: usize = 0;
        while i < c.len()
            invariant
                i <= c.len(),
                r@ == contents_le(c@.take(i as int), as_of),
            decreases c.len() - i,
        {
            assert(c@.take(i as int + 1).drop_last() =~= c@.take(i as int));
            if c[i].ts <= as_of {
                r.push(c[i].update.copy());
            }
            i = i + 1;
        }
        assert(c@.take(c.len() as int) =~= c@);
        r
    }

    /// Adds an empty data shard with frontier 0.
    pub fn create_data_shard(&mut self) -> (r: ShardId)
        requires
            old(self).wf(),
        ensures
            final(self).wf(),
            old(self).advances_to(final(self)),
            r.index == old(self).spec_datas().len(),
            final(self).spec_upper() == old(self).spec_upper(),
            final(self).spec_log() == old(self).spec_log(),
            final(self).spec_batches() == old(self).spec_batches(),
            final(self).spec_datas() == old(self).spec_datas().push(
                DataShardView { upper: 0, contents: Seq::empty() },
            ),
    {
        let r = ShardId { index: self.datas.len() };
        self.datas.push(DataShard { upper: 0, contents: Vec::new() });
        assert(self.spec_datas() =~= old(self).spec_datas().push(
            DataShardView { upper: 0, contents: Seq::empty() },
        ));
        assert(self.spec_log() =~= old(self).spec_log().subrange(0, old(self).spec_log().len() as int));
        assert forall|i: int| 0 <= i < self.spec_log().len() implies record_refs_ok(
            #[trigger] self.spec_log()[i],
            self.spec_datas(),
            self.spec_batches(),
        ) by {
            assert(record_refs_ok(old(self).spec_log()[i], old(self).spec_datas(), old(self).spec_batches()));
        }
        r
    }

    /// Writes an immutable batch of `updates` at `ts` for shard `s`. It is not
    /// visible anywhere until a txns record refers to it.
    pub fn write_batch(&mut self, s: ShardId, ts: u64, updates: Vec<Update>) -> (r: usize)
        requires
            old(self).wf(),
        ensures
            final(self).wf(),
            old(self).advances_to(final(self)),
            r == old(self).spec_batches().len(),
            final(self).spec_upper() == old(self).spec_upper(),
            final(self).spec_log() == old(self).spec_log(),
            final(self).spec_datas() == old(self).spec_datas(),
            final(self).spec_batches() == old(self).spec_batches().push(
                BatchView { shard: s, ts, updates: updates@, live: true },
            ),
    {
        let r = self.batches.len();
        self.batches.push(Batch { shard: s, ts, updates, live: true });
        assert(self.spec_batches() =~= old(self).spec_batches().push(
            BatchView { shard: s, ts, updates: updates@, live: true },
        ));
        assert(self.spec_datas() =~= old(self).spec_datas());
        assert(self.spec_log() =~= old(self).spec_log().subrange(0, old(self).spec_log().len() as int));
        assert forall|i: int| 0 <= i < self.spec_log().len() implies record_refs_ok(
            #[trigger] self.spec_log()[i],
            self.spec_datas(),
            self.spec_batches(),
        ) by {
            assert(record_refs_ok(old(self).spec_log()[i], old(self).spec_datas(), old(self).spec_batches()));
        }
        r
    }

    /// Deletes a batch that no txns record refers to.
    pub fn delete_batch(&mut self, id: usize)
        requires
            old(self).wf(),
            id < old(self).spec_batches().len(),
            forall|i: int|
                0 <= i < old(self).spec_log().len() ==> !((#[trigger] old(self).spec_log()[i]).entry
                    matches TxnsEntry::Append(b) && b.batch == id),
        ensures
            final(self).wf(),
            old(self).advances_to(final(self)),
            final(self).spec_upper() == old(self).spec_upper(),
            final(self).spec_log() == old(self).spec_log(),
            final(self).spec_datas() == old(self).spec_datas(),
            final(self).spec_batches().len() == old(self).spec_batches().len(),
            forall|k: int|
                0 <= k < old(self).spec_batches().len() && k != id ==> #[trigger] final(self).spec_batches()[k] == old(self).spec_batches()[k],
            !final(self).spec_batches()[id as int].live,
            final(self).spec_batches()[id as int].updates.len() == 0,
    {
        let shard = self.batches[id].shard;
        let ts = self.batches[id].ts;
        self.batches[id] = Batch { shard, ts, updates: Vec::new(), live: false };
        assert(self.spec_datas() =~= old(self).spec_datas());
        assert(self.spec_log() =~= old(self).spec_log().subrange(0, old(self).spec_log().len() as int));
        assert forall|k: int|
            0 <= k < old(self).spec_batches().len() && k != id implies #[trigger] self.spec_batches()[k]
            == old(self).spec_batches()[k] by {}
        assert forall|i: int| 0 <= i < self.spec_log().len() implies record_refs_ok(
            #[trigger] self.spec_log()[i],
            self.spec_datas(),
            self.spec_batches(),
        ) by {
            assert(record_refs_ok(old(self).spec_log()[i], old(self).spec_datas(), old(self).spec_batches()));
        }
    }

    /// Atomically appends `recs` to the txns shard and moves its frontier to
    /// `new_upper`, if and only if the frontier is `expected`; otherwise reports
    /// the actual frontier and changes nothing.
    pub fn compare_and_append(&mut self, expected: u64, new_upper: u64, recs: Vec<TxnsRecord>) -> (r:
        Result<(), u64>)
        requires
            old(self).wf(),
            expected < new_upper,
            forall|j: int| 0 <= j < recs.len() ==> expected <= (#[trigger] recs@[j]).ts < new_upper,
            old(self).spec_upper() == expected ==> extension_ok(
                old(self).spec_log(),
                recs@,
                (new_upper - 1) as u64,
                old(self).spec_datas(),
                old(self).spec_batches(),
            ),
        ensures
            final(self).wf(),
            old(self).advances_to(final(self)),
            r is Ok <==> old(self).spec_upper() == expected,
            r is Ok ==> final(self).spec_log() == old(self).spec_log() + recs@ && final(self).spec_upper() == new_upper,
            r matches Err(u) ==> u == old(self).spec_upper() && final(self).spec_log() == old(self).spec_log() && final(self).spec_upper() == old(self).spec_upper(),
            final(self).spec_datas() == old(self).spec_datas(),
            final(self).spec_batches() == old(self).spec_batches(),
    {
        if self.txns_upper != expected {
            assert(self.spec_log() =~= self.spec_log().subrange(0, self.spec_log().len() as int));
            return Err(self.txns_upper);
        }
        let ghost log0 = self.txns_log@;
        let mut j: usize = 0;
        while j < recs.len()
            invariant
                j <= recs.len(),
                self.txns_log@ == log0 + recs@.take(j as int),
                self.datas == old(self).datas,
                self.batches == old(self).batches,
                self.txns_upper == expected,
                old(self).spec_upper() == expected,
                expected < new_upper,
                log0 == old(self).spec_log(),
                old(self).wf(),
                forall|k: int| 0 <= k < recs.len() ==> expected <= (#[trigger] recs@[k]).ts < new_upper,
                extension_ok(
                    log0,
                    recs@,
                    (new_upper - 1) as u64,
                    old(self).spec_datas(),
                    old(self).spec_batches(),
                ),
                log_wf(new_upper, self.txns_log@, old(self).spec_datas(), old(self).spec_batches()),
            decreases recs.len() - j,
        {
            let ghost before = self.txns_log@;
            self.txns_log.push(recs[j]);
            assert(recs@.take(j as int + 1) =~= recs@.take(j as int).push(recs@[j as int]));
            assert(self.txns_log@ =~= log0 + recs@.take(j as int + 1));
            proof {
                let l = self.txns_log@;
                assert(record_ok(log0 + recs@.take(j as int), recs@[j as int]));
                assert(l.take(before.len() as int) =~= before);
                assert forall|i: int| 0 <= i < l.len() implies record_ok(
                    #[trigger] l.take(i),
                    l[i],
                ) by {
                    if i < before.len() {
                        assert(l.take(i) =~= before.take(i));
                        assert(record_ok(before.take(i), before[i]));
                    }
                }
                assert forall|i: int| 0 <= i < l.len() implies (#[trigger] l[i]).ts < new_upper by {
                    if i < before.len() {
                        assert(l[i] == before[i]);
                    }
                }
                assert forall|i: int, k: int| 0 <= i <= k < l.len() implies (#[trigger] l[i]).ts <= (
                #[trigger] l[k]).ts by {
                    if k < before.len() {
                        assert(l[i] == before[i]);
                        assert(l[k] == before[k]);
                    } else if i < log0.len() {
                        assert(l[i] == log0[i]);
                        assert(log0[i].ts < expected);
                    } else {
                        assert(l[i] == recs@[i - log0.len()]);
                    }
                }
                assert forall|i: int| 0 <= i < l.len() implies record_refs_ok(
                    #[trigger] l[i],
                    old(self).spec_datas(),
                    old(self).spec_batches(),
                ) by {
                    if i < before.len() {
                        assert(l[i] == before[i]);
                    }
                }
            }
            j = j + 1;
        }
        assert(recs@.take(recs.len() as int) =~= recs@);
        self.txns_upper = new_upper;
        assert(self.spec_datas() == old(self).spec_datas());
        assert(self.spec_batches() == old(self).spec_batches());
        assert(old(self).spec_log().is_prefix_of(self.spec_log())) by {
            assert(self.spec_log().subrange(0, log0.len() as int) =~= log0);
        }
        assert forall|i: int|
            old(self).spec_log().len() <= i < self.spec_log().len() implies (
            #[trigger] self.spec_log()[i]).ts >= old(self).spec_upper() by {
            assert(self.spec_log()[i] == recs@[i - log0.len()]);
        }
        Ok(())
    }

    /// Extends a data shard's frontier to cover an appended batch: when the
    /// frontier has not passed the batch's timestamp, the batch's updates join
    /// the shard; otherwise nothing changes.
    pub fn apply_batch(&mut self, u: UnappliedBatch)
        requires
            old(self).wf(),
            u.batch.shard.index < old(self).spec_datas().len(),
            u.batch.batch < old(self).spec_batches().len(),
            u.ts < u64::MAX,
        ensures
            final(self).wf(),
            old(self).advances_to(final(self)),
            final(self).spec_upper() == old(self).spec_upper(),
            final(self).spec_log() == old(self).spec_log(),
            final(self).spec_batches() == old(self).spec_batches(),
            final(self).spec_datas() == apply_one(old(self).spec_datas(), old(self).spec_batches(), u),
    {
        let s = u.batch.shard.index;
        if self.datas[s].upper <= u.ts {
            let ghost c0 = self.datas@[s as int].contents@;
            let b = u.batch.batch;
            let mut k: usize = 0;
            while k < self.batches[b].updates.len()
                invariant
                    s < self.datas.len(),
                    b < self.batches.len(),
                    self.batches == old(self).batches,
                    self.txns_log == old(self).txns_log,
                    self.txns_upper == old(self).txns_upper,
                    self.datas.len() == old(self).datas.len(),
                    forall|d: int| 0 <= d < self.datas.len() && d != s ==> self.datas@[d] == old(self).datas@[d],
                    self.datas@[s as int].upper == old(self).datas@[s as int].upper,
                    c0 == old(self).datas@[s as int].contents@,
                    k <= self.batches@[b as int].updates.len(),
                    self.datas@[s as int].contents@ == c0 + stamp(
                        self.batches@[b as int].updates@.take(k as int),
                        u.ts,
                    ),
                decreases self.batches@[b as int].updates.len() - k,
            {
                let du = DataUpdate { ts: u.ts, update: self.batches[b].updates[k].copy() };
                self.datas[s].contents.push(du);
                k = k + 1;
                assert(stamp(self.batches@[b as int].updates@.take(k as int), u.ts) =~= stamp(
                    self.batches@[b as int].updates@.take(k as int - 1),
                    u.ts,
                ).push(du));
            }
            assert(self.batches@[b as int].updates@.take(k as int)
                =~= self.batches@[b as int].updates@);
            self.datas[s].upper = u.ts + 1;
        }
        assert(self.spec_datas() =~= apply_one(old(self).spec_datas(), old(self).spec_batches(), u));
        assert(self.spec_log() =~= old(self).spec_log().subrange(0, old(self).spec_log().len() as int));
        assert forall|i: int| 0 <= i < self.spec_log().len() implies record_refs_ok(
            #[trigger] self.spec_log()[i],
            self.spec_datas(),
            self.spec_batches(),
        ) by {
            assert(record_refs_ok(old(self).spec_log()[i], old(self).spec_datas(), old(self).spec_batches()));
        }
    }
}

/// The updates among `c` with timestamps at or before `as_of`, in order.
pub open spec fn contents_le(c: Seq<DataUpdate>, as_of: u64) -> Seq<Update>
    decreases c.len(),
{
    if c.len() == 0 {
        Seq::empty()
    } else if c.last().ts <= as_of {
        contents_le(c.drop_last(), as_of).push(c.last().update)
    } else {
        contents_le(c.drop_last(), as_of)
    }
}

} // verus!
