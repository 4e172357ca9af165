//! Staging writes into a transaction and committing them atomically.

use vstd::prelude::*;
use crate::entry::{
    append_count, copy_updates, lemma_append_count_absent, lemma_append_count_concat,
    lemma_append_count_witness, lemma_registered_witness, record_ok, registered_before,
    retraction_records, BatchRef, ShardId, TxnsEntry, TxnsRecord, Update,
};
use crate::store::{extension_ok, record_refs_ok, BatchView, ShardStore};
use crate::tidy::Tidy;
use crate::txns::TxnsHandle;

verus! {

/// Staged writes, per data shard, in the order the shards were first written.
pub type StagedWrites = Seq<(ShardId, Seq<Update>)>;

/// The position of shard `s` in the staged writes, or -1.
pub open spec fn shard_pos(ws: StagedWrites, s: ShardId) -> int
    decreases ws.len(),
{
    if ws.len() == 0 {
        -1
    } else if ws.last().0 == s {
        ws.len() - 1
    } else {
        shard_pos(ws.drop_last(), s)
    }
}

/// The staged writes with `us` added after those already staged for `s`.
pub open spec fn staged_extend(ws: StagedWrites, s: ShardId, us: Seq<Update>) -> StagedWrites {
    let p = shard_pos(ws, s);
    if p >= 0 {
        ws.update(p, (s, ws[p].1 + us))
    } else {
        ws.push((s, us))
    }
}

/// The staged writes of `ws` with those of `os` added, shard by shard.
pub open spec fn staged_merge(ws: StagedWrites, os: StagedWrites) -> StagedWrites
    decreases os.len(),
{
    if os.len() == 0 {
        ws
    } else {
        staged_extend(staged_merge(ws, os.drop_last()), os.last().0, os.last().1)
    }
}

pub open spec fn distinct_shards(ws: StagedWrites) -> bool {
    forall|i: int, j: int| 0 <= i < j < ws.len() ==> ws[i].0 != ws[j].0
}

pub proof fn lemma_shard_pos(ws: StagedWrites, s: ShardId)
    ensures
        -1 <= shard_pos(ws, s) < ws.len(),
        shard_pos(ws, s) >= 0 ==> ws[shard_pos(ws, s)].0 == s,
        shard_pos(ws, s) == -1 ==> forall|k: int| 0 <= k < ws.len() ==> ws[k].0 != s,
    decreases ws.len(),
{
    if ws.len() > 0 {
        lemma_shard_pos(ws.drop_last(), s);
        if ws.last().0 != s {
            assert forall|k: int| 0 <= k < ws.drop_last().len() implies ws[k] == ws.drop_last()[k] by {}
        }
    }
}

/// Staging extends the shard's own writes and keeps shards distinct.
pub proof fn lemma_staged_extend(ws: StagedWrites, s: ShardId, us: Seq<Update>)
    requires
        distinct_shards(ws),
    ensures
        distinct_shards(staged_extend(ws, s, us)),
{
    lemma_shard_pos(ws, s);
}

/// The appends a successful commit wrote: one per staged shard, in order, each
/// for a fresh live batch holding exactly that shard's staged updates.
pub open spec fn appends_match(
    recs: Seq<TxnsRecord>,
    ws: StagedWrites,
    batches: Seq<BatchView>,
    ts: u64,
) -> bool {
    &&& recs.len() == ws.len()
    &&& forall|k: int|
        0 <= k < ws.len() ==> {
            &&& (#[trigger] recs[k]).ts == ts
            &&& recs[k].diff == 1
            &&& recs[k].entry matches TxnsEntry::Append(b) && {
                &&& b.shard == ws[k].0
                &&& b.batch < batches.len()
                &&& batches[b.batch as int] == BatchView {
                    shard: ws[k].0,
                    ts,
                    updates: ws[k].1,
                    live: true,
                }
            }
        }
}

/// The txns records of a successful commit at `ts`: the appends, then the
/// retractions of the tidy work that was still outstanding.
pub open spec fn commit_records_ok(
    log0: Seq<TxnsRecord>,
    log1: Seq<TxnsRecord>,
    batches: Seq<BatchView>,
    ws: StagedWrites,
    rs: Seq<BatchRef>,
    ts: u64,
) -> bool {
    let n = log0.len() + ws.len();
    &&& n <= log1.len()
    &&& log1.subrange(0, log0.len() as int) == log0
    &&& appends_match(log1.subrange(log0.len() as int, n as int), ws, batches, ts)
    &&& log1.skip(n as int) == retraction_records(log0, rs, ts)
}

/// The retractions made for a set of tidy work are distinct outstanding batches.
pub proof fn lemma_retraction_records(log: Seq<TxnsRecord>, rs: Seq<BatchRef>, ts: u64)
    requires
        rs.no_duplicates(),
    ensures
        forall|m: int|
            0 <= m < retraction_records(log, rs, ts).len() ==> {
                &&& (#[trigger] retraction_records(log, rs, ts)[m]).ts == ts
                &&& retraction_records(log, rs, ts)[m].diff == -1
                &&& retraction_records(log, rs, ts)[m].entry matches TxnsEntry::Append(b) && append_count(log, b) == 1
                    && rs.contains(b)
            },
        forall|m1: int, m2: int|
            0 <= m1 < m2 < retraction_records(log, rs, ts).len() ==> (#[trigger] retraction_records(
                log,
                rs,
                ts,
            )[m1]).entry != (#[trigger] retraction_records(log, rs, ts)[m2]).entry,
    decreases rs.len(),
{
    if rs.len() > 0 {
        let pre = rs.drop_last();
        assert(pre.no_duplicates()) by {
            assert forall|i: int, j: int| 0 <= i < pre.len() && 0 <= j < pre.len() && i != j implies pre[i] != pre[j] by {
                assert(pre[i] == rs[i] && pre[j] == rs[j]);
            }
        }
        lemma_retraction_records(log, pre, ts);
        let r0 = retraction_records(log, pre, ts);
        let r1 = retraction_records(log, rs, ts);
        assert forall|m: int| 0 <= m < r0.len() implies (#[trigger] r0[m]).entry matches TxnsEntry::Append(b) && rs.contains(b) by {
            let b = r0[m].entry->Append_0;
            assert(pre.contains(b));
            let i = choose|i: int| 0 <= i < pre.len() && pre[i] == b;
            assert(rs[i] == b);
        }
        if append_count(log, rs.last()) == 1 {
            assert forall|m: int| 0 <= m < r0.len() implies r0[m].entry != TxnsEntry::Append(rs.last()) by {
                let b = r0[m].entry->Append_0;
                assert(pre.contains(b));
                let i = choose|i: int| 0 <= i < pre.len() && pre[i] == b;
                assert(rs[i] == b);
                assert(rs[rs.len() - 1] == rs.last());
            }
            assert(rs.contains(rs.last())) by {
                assert(rs[rs.len() - 1] == rs.last());
            }
            assert forall|m1: int, m2: int| 0 <= m1 < m2 < r1.len() implies (#[trigger] r1[m1]).entry != (#[trigger] r1[m2]).entry by {
                if m2 < r0.len() {
                    assert(r1[m1] == r0[m1] && r1[m2] == r0[m2]);
                } else {
                    assert(r1[m1] == r0[m1]);
                }
            }
            assert forall|m: int| 0 <= m < r1.len() implies {
                &&& (#[trigger] r1[m]).ts == ts
                &&& r1[m].diff == -1
                &&& r1[m].entry matches TxnsEntry::Append(b) && append_count(log, b) == 1 && rs.contains(b)
            } by {
                if m < r0.len() {
                    assert(r1[m] == r0[m]);
                }
            }
        }
    }
}

struct ShardWrites {
    shard: ShardId,
    updates: Vec<Update>,
}

/// An in-progress transaction: writes staged per data shard, plus retraction
/// work that rides along with the commit.
pub struct Txn {
    writes: Vec<ShardWrites>,
    tidy: Tidy,
}

/// A token for the apply work that a successful commit leaves to be done.
#[derive(Debug, PartialEq, Eq, Structural)]
pub struct TxnApply {
    is_empty: bool,
    commit_ts: u64,
}

impl TxnApply {
    pub closed spec fn spec_is_empty(&self) -> bool {
        self.is_empty
    }

    pub closed spec fn spec_commit_ts(&self) -> u64 {
        self.commit_ts
    }

    /// Whether the committed transaction had no data writes, so that applying
    /// it may be skipped.
    pub fn is_empty(&self) -> (r: bool)
        ensures
            r == self.spec_is_empty(),
    {
        self.is_empty
    }

    /// The timestamp the transaction committed at.
    pub fn commit_ts(&self) -> (r: u64)
        ensures
            r == self.spec_commit_ts(),
    {
        self.commit_ts
    }

    /// Applies the transaction (and every earlier one not yet applied), so that
    /// reads at its commit timestamp no longer wait; returns the retraction work.
    pub fn apply(self, handle: &mut TxnsHandle, store: &mut ShardStore) -> (r: Tidy)
        requires
            old(store).wf(),
            old(handle).consistent_with(old(store)),
            self.spec_commit_ts() < old(store).spec_upper(),
        ensures
            final(store).wf(),
            final(handle).consistent_with(final(store)),
            old(store).advances_to(final(store)),
            final(store).spec_log() == old(store).spec_log(),
            final(store).spec_upper() == old(store).spec_upper(),
            final(store).spec_batches() == old(store).spec_batches(),
            final(store).spec_datas() == crate::store::apply_all(
                old(store).spec_datas(),
                old(store).spec_batches(),
                crate::txns::unapplied_le(crate::entry::unapplied(old(store).spec_log()), self.spec_commit_ts()),
            ),
            r.wf(),
            r.spec_set() == crate::txns::batch_set(
                crate::txns::unapplied_le(crate::entry::unapplied(old(store).spec_log()), self.spec_commit_ts()),
            ),
    {
        handle.apply_le(store, self.commit_ts)
    }
}

impl Txn {
    /// The staged writes, per shard.
    pub closed spec fn spec_writes(&self) -> StagedWrites {
        self.writes@.map_values(|w: ShardWrites| (w.shard, w.updates@))
    }

    /// The retraction work carried by the transaction.
    pub closed spec fn spec_tidy(&self) -> Tidy {
        self.tidy
    }

    pub open spec fn wf(&self) -> bool {
        &&& distinct_shards(self.spec_writes())
        &&& self.spec_tidy().wf()
    }

    pub(crate) fn new() -> (r: Txn)
        ensures
            r.wf(),
            r.spec_writes().len() == 0,
            r.spec_tidy().spec_retractions().len() == 0,
    {
        let r = Txn { writes: Vec::new(), tidy: Tidy::new() };
        assert(r.spec_writes() =~= Seq::<(ShardId, Seq<Update>)>::empty());
        r
    }

    /// The position of shard `s` among the staged writes.
    fn find_shard(&self, s: ShardId) -> (r: Option<usize>)
        ensures
            r matches Some(p) ==> p == shard_pos(self.spec_writes(), s),
            r is None ==> shard_pos(self.spec_writes(), s) == -1,
    {
        let mut i: usize = self.writes.len();
        assert(self.spec_writes().take(i as int) =~= self.spec_writes());
        while i > 0
            invariant
                i <= self.writes.len(),
                shard_pos(self.spec_writes(), s) == shard_pos(self.spec_writes().take(i as int), s),
            decreases i,
        {
            assert(self.spec_writes().take(i as int).drop_last() =~= self.spec_writes().take(i as int - 1));
            if self.writes[i - 1].shard == s {
                return Some(i - 1);
            }
            i = i - 1;
        }
        None
    }

    /// Adds `us` after the updates already staged for shard `s`.
    fn extend_shard(&mut self, s: ShardId, us: Vec<Update>)
        requires
            old(self).wf(),
        ensures
            final(self).wf(),
            final(self).spec_writes() == staged_extend(old(self).spec_writes(), s, us@),
            final(self).spec_tidy() == old(self).spec_tidy(),
    {
        proof {
            lemma_shard_pos(self.spec_writes(), s);
            lemma_staged_extend(self.spec_writes(), s, us@);
        }
        match self.find_shard(s) {
            Some(p) => {
                let ghost us0 = us@;
                let mut us = us;
                self.writes[p].updates.append(&mut us);
                assert(self.spec_writes() =~= staged_extend(old(self).spec_writes(), s, us0));
            },
            None => {
                self.writes.push(ShardWrites { shard: s, updates: us });
                assert(self.spec_writes() =~= staged_extend(old(self).spec_writes(), s, us@));
            },
        }
    }

    /// Stages a write to data shard `data_id`; its timestamp is assigned when
    /// the transaction commits.
    pub fn write(&mut self, data_id: &ShardId, key: String, val: String, diff: i64)
        requires
            old(self).wf(),
        ensures
            final(self).wf(),
            final(self).spec_writes() == staged_extend(
                old(self).spec_writes(),
                *data_id,
                seq![Update { key, val, diff }],
            ),
            final(self).spec_tidy() == old(self).spec_tidy(),
    {
        let mut us: Vec<Update> = Vec::new();
        us.push(Update { key, val, diff });
        assert(us@ =~= seq![Update { key, val, diff }]);
        self.extend_shard(*data_id, us);
    }

    /// Adds the staged writes and retraction work of `other` to this transaction.
    pub fn merge(&mut self, other: Txn)
        requires
            old(self).wf(),
            other.wf(),
        ensures
            final(self).wf(),
            final(self).spec_writes() == staged_merge(old(self).spec_writes(), other.spec_writes()),
            final(self).spec_tidy().spec_set() == old(self).spec_tidy().spec_set().union(
                other.spec_tidy().spec_set(),
            ),
    {
        let Txn { writes, tidy } = other;
        let ghost os = other.spec_writes();
        let mut i: usize = 0;
        while i < writes.len()
            invariant
                i <= writes.len(),
                os == writes@.map_values(|w: ShardWrites| (w.shard, w.updates@)),
                self.wf(),
                self.spec_writes() == staged_merge(old(self).spec_writes(), os.take(i as int)),
                self.spec_tidy() == old(self).spec_tidy(),
            decreases writes.len() - i,
        {
            let us = copy_updates(&writes[i].updates);
            self.extend_shard(writes[i].shard, us);
            assert(os.take(i as int + 1).drop_last() =~= os.take(i as int));
            assert(os.take(i as int + 1).last() == os[i as int]);
            i = i + 1;
        }
        assert(os.take(i as int) =~= os);
        self.tidy.merge(tidy);
    }

    /// Adds retraction work to this transaction; it is committed along with it.
    pub fn tidy(&mut self, tidy: Tidy)
        requires
            old(self).wf(),
            tidy.wf(),
        ensures
            final(self).wf(),
            final(self).spec_writes() == old(self).spec_writes(),
            final(self).spec_tidy().spec_set() == old(self).spec_tidy().spec_set().union(
                tidy.spec_set(),
            ),
            old(self).spec_tidy().spec_retractions().len() == 0 ==> final(
                self).spec_tidy().spec_retractions() == tidy.spec_retractions(),
    {
        self.tidy.merge(tidy);
    }

    /// Takes back the retraction work added to this transaction.
    pub fn take_tidy(&mut self) -> (r: Tidy)
        requires
            old(self).wf(),
        ensures
            final(self).wf(),
            r == old(self).spec_tidy(),
            final(self).spec_writes() == old(self).spec_writes(),
            final(self).spec_tidy().spec_retractions().len() == 0,
    {
        let mut t = Tidy::new();
        std::mem::swap(&mut self.tidy, &mut t);
        t
    }

    /// Commits the transaction at `commit_ts`: atomically all staged writes,
    /// together with the retraction work not yet done by anyone, or nothing.
    ///
    /// When `commit_ts` is no longer open, returns the least timestamp that may
    /// be tried instead. On success, returns the apply work left to be done.
    pub fn commit_at(&self, handle: &mut TxnsHandle, store: &mut ShardStore, commit_ts: u64) -> (r:
        Result<TxnApply, u64>)
        requires
            self.wf(),
            old(store).wf(),
            old(handle).consistent_with(old(store)),
            commit_ts < u64::MAX,
            forall|k: int|
                0 <= k < self.spec_writes().len() ==> registered_before(
                    old(store).spec_log(),
                    (#[trigger] self.spec_writes()[k]).0,
                    commit_ts,
                ),
        ensures
            final(store).wf(),
            final(handle).consistent_with(final(store)),
            old(store).advances_to(final(store)),
            final(store).spec_datas() == old(store).spec_datas(),
            forall|k: int|
                0 <= k < old(store).spec_batches().len() ==> #[trigger] final(store).spec_batches()[k]
                    == old(store).spec_batches()[k],
            r is Ok <==> commit_ts >= old(store).spec_upper(),
            r matches Ok(a) ==> {
                &&& final(handle).spec_known_upper() == commit_ts + 1
                &&& a.spec_commit_ts() == commit_ts
                &&& a.spec_is_empty() == (self.spec_writes().len() == 0)
                &&& final(store).spec_upper() == commit_ts + 1
                &&& commit_records_ok(
                    old(store).spec_log(),
                    final(store).spec_log(),
                    final(store).spec_batches(),
                    self.spec_writes(),
                    self.spec_tidy().spec_retractions(),
                    commit_ts,
                )
            },
            r matches Err(u) ==> {
                &&& commit_ts < u <= old(store).spec_upper()
                &&& u == if commit_ts < old(handle).spec_known_upper() {
                    old(handle).spec_known_upper()
                } else {
                    old(store).spec_upper()
                }
                &&& final(handle).spec_known_upper() == u
                &&& final(store).spec_log() == old(store).spec_log()
                &&& final(store).spec_upper() == old(store).spec_upper()
                &&& forall|k: int|
                    old(store).spec_batches().len() <= k < final(store).spec_batches().len()
                        ==> !(#[trigger] final(store).spec_batches()[k]).live
            },
    {
        let ghost log0 = store.spec_log();
        let ghost batches0 = store.spec_batches();
        let mut txns_upper = handle.known_upper();
        handle.sync_cache(store);
        let n = self.writes.len();
        assert forall|i: int| 0 <= i < log0.len() implies ((#[trigger] log0[i]).entry matches TxnsEntry::Append(c) ==> c.batch < batches0.len()) by {
            assert(record_refs_ok(log0[i], old(store).spec_datas(), batches0));
        }
        loop
            invariant
                self.wf(),
                n == self.spec_writes().len(),
                store.wf(),
                handle.consistent_with(store),
                handle.spec_cache().spec_records() == store.spec_log(),
                old(store).advances_to(store),
                log0 == old(store).spec_log(),
                batches0 == old(store).spec_batches(),
                store.spec_log() == log0,
                store.spec_upper() == old(store).spec_upper(),
                store.spec_datas() == old(store).spec_datas(),
                forall|k: int|
                    0 <= k < batches0.len() ==> #[trigger] store.spec_batches()[k] == batches0[k],
                forall|k: int|
                    batches0.len() <= k < store.spec_batches().len() ==> !(
                    #[trigger] store.spec_batches()[k]).live,
                txns_upper <= store.spec_upper(),
                txns_upper == handle.spec_known_upper(),
                txns_upper == old(handle).spec_known_upper() || (txns_upper == store.spec_upper()
                    && commit_ts >= old(handle).spec_known_upper()),
                commit_ts < u64::MAX,
                forall|i: int| 0 <= i < log0.len() ==> ((#[trigger] log0[i]).entry matches TxnsEntry::Append(c) ==> c.batch < batches0.len()),
                forall|k: int|
                    0 <= k < self.spec_writes().len() ==> registered_before(
                        log0,
                        (#[trigger] self.spec_writes()[k]).0,
                        commit_ts,
                    ),
            decreases store.spec_upper() - txns_upper,
        {
            if commit_ts < txns_upper {
                return Err(txns_upper);
            }
            // Write one batch per staged shard. They stay invisible until the
            // txns record that refers to them commits.
            let b0 = store.num_batches();
            let mut recs: Vec<TxnsRecord> = Vec::new();
            let mut k: usize = 0;
            while k < n
                invariant
                    self.wf(),
                    n == self.spec_writes().len(),
                    k <= n,
                    b0 >= batches0.len(),
                    store.wf(),
                    old(store).advances_to(store),
                    store.spec_log() == log0,
                    log0 == old(store).spec_log(),
                    store.spec_upper() == old(store).spec_upper(),
                    store.spec_datas() == old(store).spec_datas(),
                    store.spec_batches().len() == b0 + k,
                    b0 + k <= usize::MAX + 1,
                    forall|i: int| 0 <= i < batches0.len() ==> #[trigger] store.spec_batches()[i] == batches0[i],
                    forall|i: int| batches0.len() <= i < b0 ==> !(#[trigger] store.spec_batches()[i]).live,
                    recs@.len() == k,
                    forall|j: int|
                        0 <= j < k ==> #[trigger] recs@[j] == (TxnsRecord {
                            entry: TxnsEntry::Append(BatchRef { batch: (b0 + j) as usize, shard: self.spec_writes()[j].0 }),
                            ts: commit_ts,
                            diff: 1,
                        }),
                    forall|j: int|
                        0 <= j < k ==> #[trigger] store.spec_batches()[b0 + j] == (BatchView {
                            shard: self.spec_writes()[j].0,
                            ts: commit_ts,
                            updates: self.spec_writes()[j].1,
                            live: true,
                        }),
                decreases n - k,
            {
                let shard = self.writes[k].shard;
                let us = copy_updates(&self.writes[k].updates);
                let id = store.write_batch(shard, commit_ts, us);
                recs.push(TxnsRecord {
                    entry: TxnsEntry::Append(BatchRef { batch: id, shard }),
                    ts: commit_ts,
                    diff: 1,
                });
                k = k + 1;
            }
            let ghost appends = recs@;
            let ghost batches1 = store.spec_batches();
            // Retract what the tidy work names and is still outstanding as of
            // the replay, which is the whole txns shard.
            let mut rets = handle.cache().filter_retractions(&self.tidy, commit_ts);
            let ghost rets0 = rets@;
            recs.append(&mut rets);
            proof {
                let rs = self.spec_tidy().spec_retractions();
                lemma_retraction_records(log0, rs, commit_ts);
                let all = recs@;
                assert(all == appends + rets0);
                assert forall|j: int| 0 <= j < all.len() implies {
                    &&& (#[trigger] all[j]).ts == commit_ts
                    &&& record_ok(log0 + all.take(j), all[j])
                    &&& record_refs_ok(all[j], store.spec_datas(), batches1)
                } by {
                    let rec = all[j];
                    let b = rec.entry->Append_0;
                    // No record of the log refers to a batch written in this attempt.
                    lemma_append_count_concat(log0, all.take(j), b);
                    if j < n {
                        assert(all[j] == appends[j]);
                        assert(b.batch == b0 + j);
                        assert forall|i: int| 0 <= i < log0.len() implies (#[trigger] log0[i]).entry != TxnsEntry::Append(b) by {
                            assert(log0[i].entry matches TxnsEntry::Append(c) ==> c.batch < batches0.len());
                        }
                        lemma_append_count_absent(log0, b);
                        assert forall|i: int| 0 <= i < all.take(j).len() implies (#[trigger] all.take(j)[i]).entry != TxnsEntry::Append(b) by {
                            assert(all.take(j)[i] == appends[i]);
                        }
                        lemma_append_count_absent(all.take(j), b);
                        let s = self.spec_writes()[j].0;
                        lemma_registered_witness(log0, s);
                        let ri = choose|ri: int| 0 <= ri < log0.len() && (#[trigger] log0[ri]).entry == TxnsEntry::Register(s) && log0[ri].ts == crate::entry::registered_at(log0, s)->Some_0;
                        assert(record_refs_ok(log0[ri], store.spec_datas(), store.spec_batches()));
                        assert(batches1[b0 + j] == store.spec_batches()[b0 + j]);
                    } else {
                        let m = j - n;
                        assert(all[j] == rets0[m]);
                        assert(append_count(log0, b) == 1);
                        assert forall|i: int| 0 <= i < log0.len() implies (#[trigger] log0[i]).diff == 1 || log0[i].diff == -1 by {
                            assert(record_refs_ok(log0[i], store.spec_datas(), store.spec_batches()));
                        }
                        lemma_append_count_witness(log0, b);
                        let wi = choose|wi: int| 0 <= wi < log0.len() && (#[trigger] log0[wi]).entry == TxnsEntry::Append(b) && log0[wi].diff == 1;
                        assert(record_refs_ok(log0[wi], store.spec_datas(), store.spec_batches()));
                        assert(b.batch < b0);
                        assert forall|i: int| 0 <= i < all.take(j).len() implies (#[trigger] all.take(j)[i]).entry != TxnsEntry::Append(b) by {
                            if i < n {
                                assert(all.take(j)[i] == appends[i]);
                            } else {
                                assert(all.take(j)[i] == rets0[i - n]);
                            }
                        }
                        lemma_append_count_absent(all.take(j), b);
                    }
                }
                assert(extension_ok(log0, all, commit_ts, store.spec_datas(), batches1));
            }
            let res = store.compare_and_append(txns_upper, commit_ts + 1, recs);
            match res {
                Ok(()) => {
                    handle.note_upper(commit_ts + 1);
                    proof {
                        let log1 = store.spec_log();
                        let all = appends + rets0;
                        assert(log1 == log0 + all);
                        assert(log1.subrange(0, log0.len() as int) =~= log0);
                        assert(log1.subrange(log0.len() as int, log0.len() + n) =~= appends);
                        assert(log1.skip(log0.len() + n) =~= rets0);
                        assert forall|j: int| 0 <= j < n implies (#[trigger] appends[j]).ts == commit_ts && appends[j].diff == 1
                            && (appends[j].entry matches TxnsEntry::Append(b) && {
                                &&& b.shard == self.spec_writes()[j].0
                                &&& b.batch < store.spec_batches().len()
                                &&& store.spec_batches()[b.batch as int] == BatchView {
                                    shard: self.spec_writes()[j].0,
                                    ts: commit_ts,
                                    updates: self.spec_writes()[j].1,
                                    live: true,
                                }
                            }) by {
                            assert((b0 + j) as usize == b0 + j);
                            assert(store.spec_batches()[b0 + j] == batches1[b0 + j]);
                        }
                        assert(handle.spec_cache().spec_records().is_prefix_of(store.spec_log()));
                    }
                    return Ok(TxnApply { is_empty: n == 0, commit_ts });
                },
                Err(u) => {
                    // Someone else moved the frontier first: the batches of this
                    // attempt are orphans; delete them and try again.
                    let mut k: usize = 0;
                    while k < n
                        invariant
                            k <= n,
                            store.wf(),
                            old(store).advances_to(store),
                            store.spec_log() == log0,
                            log0 == old(store).spec_log(),
                            store.spec_upper() == old(store).spec_upper(),
                            store.spec_datas() == old(store).spec_datas(),
                            store.spec_batches().len() == b0 + n,
                            b0 + n <= usize::MAX + 1,
                            b0 >= batches0.len(),
                            forall|i: int| 0 <= i < batches0.len() ==> #[trigger] store.spec_batches()[i] == batches0[i],
                            forall|i: int| batches0.len() <= i < b0 + k ==> !(#[trigger] store.spec_batches()[i]).live,
                            forall|i: int| 0 <= i < log0.len() ==> ((#[trigger] log0[i]).entry matches TxnsEntry::Append(c) ==> c.batch < batches0.len()),
                        decreases n - k,
                    {
                        proof {
                            assert forall|i: int| 0 <= i < store.spec_log().len() implies !((#[trigger] store.spec_log()[i]).entry matches TxnsEntry::Append(c) && c.batch == b0 + k) by {
                                assert(store.spec_log()[i] == log0[i]);
                            }
                        }
                        store.delete_batch(b0 + k);
                        k = k + 1;
                    }
                    handle.sync_cache(store);
                    txns_upper = u;
                    handle.note_upper(u);
                },
            }
        }
    }
}

} // verus!
