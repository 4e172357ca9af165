//! The coordinator: a handle on the txns shard with its own replay, through
//! which shards are registered, transactions begun, applied and tidied.

use vstd::prelude::*;
use crate::cache::TxnsCache;
use crate::entry::{
    outstanding_at, registered_at, retraction_records, unapplied, unapplied_upto, ShardId, TxnsEntry, TxnsRecord,
    UnappliedBatch,
};
use crate::store::{apply_all, record_refs_ok, ShardStore};
use crate::tidy::Tidy;
use crate::txn_write::Txn;

verus! {

/// The batches of `us` committed at or before `ts`, in order.
pub open spec fn unapplied_le(us: Seq<UnappliedBatch>, ts: u64) -> Seq<UnappliedBatch>
    decreases us.len(),
{
    if us.len() == 0 {
        Seq::empty()
    } else if us.last().ts <= ts {
        unapplied_le(us.drop_last(), ts).push(us.last())
    } else {
        unapplied_le(us.drop_last(), ts)
    }
}

/// The batches of `us`, as a set of references.
pub open spec fn batch_set(us: Seq<UnappliedBatch>) -> Set<crate::entry::BatchRef> {
    us.map_values(|u: UnappliedBatch| u.batch).to_set()
}

/// Each outstanding append among the first `n` records comes from an append
/// record of the log.
pub proof fn lemma_unapplied_records(log: Seq<TxnsRecord>, n: int)
    requires
        0 <= n <= log.len(),
    ensures
        forall|m: int|
            #![trigger unapplied_upto(log, n)[m]]
            0 <= m < unapplied_upto(log, n).len() ==> exists|i: int|
                #![trigger log[i]]
                0 <= i < n && log[i].diff == 1 && log[i].entry == TxnsEntry::Append(
                    unapplied_upto(log, n)[m].batch,
                ) && log[i].ts == unapplied_upto(log, n)[m].ts,
    decreases n,
{
    if n > 0 {
        lemma_unapplied_records(log, n - 1);
        let prev = unapplied_upto(log, n - 1);
        let cur = unapplied_upto(log, n);
        if outstanding_at(log, n - 1) {
            assert(cur == prev.push(
                UnappliedBatch { batch: log[n - 1].entry->Append_0, ts: log[n - 1].ts },
            ));
        } else {
            assert(cur == prev);
        }
        assert forall|m: int| #![trigger cur[m]] 0 <= m < cur.len() implies exists|i: int|
            #![trigger log[i]]
            0 <= i < n && log[i].diff == 1 && log[i].entry == TxnsEntry::Append(cur[m].batch)
                && log[i].ts == cur[m].ts by {
            if m < prev.len() {
                assert(cur[m] == prev[m]);
                let i = choose|i: int|
                    #![trigger log[i]]
                    0 <= i < n - 1 && log[i].diff == 1 && log[i].entry == TxnsEntry::Append(
                        prev[m].batch,
                    ) && log[i].ts == prev[m].ts;
                assert(0 <= i < n && log[i].diff == 1);
            } else {
                assert(outstanding_at(log, n - 1));
                assert(cur[m].batch == log[n - 1].entry->Append_0);
                assert(log[n - 1].entry == TxnsEntry::Append(cur[m].batch));
                assert(0 <= n - 1 < n && log[n - 1].diff == 1);
            }
        }
    }
}

/// A handle on the txns shard of a store.
#[derive(Debug)]
pub struct TxnsHandle {
    txns_upper: u64,
    cache: TxnsCache,
}

impl TxnsHandle {
    /// The last frontier of the txns shard that this handle has seen.
    pub closed spec fn spec_known_upper(&self) -> u64 {
        self.txns_upper
    }

    /// This handle's replay of the txns shard.
    pub closed spec fn spec_cache(&self) -> TxnsCache {
        self.cache
    }

    /// The handle may be used with `store`: its replay is a prefix of the txns
    /// shard and its frontier is one the shard has reached.
    pub open spec fn consistent_with(&self, store: &ShardStore) -> bool {
        &&& self.spec_cache().wf()
        &&& self.spec_cache().consistent_with(store)
        &&& self.spec_known_upper() <= store.spec_upper()
    }

    /// A handle on the txns shard of `store`, with an up to date replay.
    pub fn open(store: &ShardStore) -> (r: TxnsHandle)
        requires
            store.wf(),
        ensures
            r.consistent_with(store),
            r.spec_known_upper() == store.spec_upper(),
    {
        let mut cache = TxnsCache::open(store);
        cache.update_ge(store, store.txns_upper());
        TxnsHandle { txns_upper: store.txns_upper(), cache }
    }

    /// A new, empty transaction.
    pub fn begin(&self) -> (r: Txn)
        ensures
            r.wf(),
            r.spec_writes().len() == 0,
            r.spec_tidy().spec_retractions().len() == 0,
    {
        Txn::new()
    }

    pub fn known_upper(&self) -> (r: u64)
        ensures
            r == self.spec_known_upper(),
    {
        self.txns_upper
    }

    /// This handle's replay of the txns shard.
    pub fn cache(&self) -> (r: &TxnsCache)
        ensures
            *r == self.spec_cache(),
    {
        &self.cache
    }

    /// Brings the replay up to the store's txns shard.
    pub(crate) fn sync_cache(&mut self, store: &ShardStore)
        requires
            old(self).consistent_with(store),
            store.wf(),
        ensures
            final(self).consistent_with(store),
            final(self).spec_cache().spec_records() == store.spec_log(),
            final(self).spec_cache().spec_progress() == store.spec_upper(),
            final(self).spec_known_upper() == old(self).spec_known_upper(),
    {
        self.cache.update_ge(store, store.txns_upper());
    }

    /// Records a frontier of the txns shard that was observed.
    pub(crate) fn note_upper(&mut self, u: u64)
        ensures
            final(self).spec_known_upper() == u,
            final(self).spec_cache() == old(self).spec_cache(),
    {
        self.txns_upper = u;
    }

    /// Registers data shard `data_id` for transactions from `register_ts` on.
    ///
    /// A shard registered already keeps its registration, whose timestamp is
    /// returned. Otherwise it is registered at `register_ts` if that is still
    /// open, and if it is not, the least timestamp that may be tried instead is
    /// returned as the error.
    pub fn register(&mut self, store: &mut ShardStore, register_ts: u64, data_id: ShardId) -> (r:
        Result<u64, u64>)
        requires
            old(store).wf(),
            old(self).consistent_with(old(store)),
            data_id.index < old(store).spec_datas().len(),
            register_ts < u64::MAX,
        ensures
            final(store).wf(),
            final(self).consistent_with(final(store)),
            old(store).advances_to(final(store)),
            final(store).spec_datas() == old(store).spec_datas(),
            final(store).spec_batches() == old(store).spec_batches(),
            registered_at(old(store).spec_log(), data_id) matches Some(t) ==> r == Ok::<u64, u64>(t)
                && final(store).spec_log() == old(store).spec_log() && final(store).spec_upper()
                == old(store).spec_upper(),
            registered_at(old(store).spec_log(), data_id) is None && register_ts >= old(
                store).spec_upper() ==> r == Ok::<u64, u64>(register_ts) && final(store).spec_log()
                == old(store).spec_log().push(
                TxnsRecord { entry: TxnsEntry::Register(data_id), ts: register_ts, diff: 1 },
            ) && final(store).spec_upper() == register_ts + 1,
            registered_at(old(store).spec_log(), data_id) is None && register_ts < old(
                store).spec_upper() ==> (r matches Err(u) && register_ts < u <= old(store).spec_upper()
                && u == (if register_ts < old(self).spec_known_upper() {
                old(self).spec_known_upper()
            } else {
                old(store).spec_upper()
            }) && final(self).spec_known_upper() == u && final(store).spec_log() == old(
                store).spec_log() && final(store).spec_upper() == old(store).spec_upper()),
    {
        let mut txns_upper = self.txns_upper;
        loop
            invariant
                store.wf(),
                self.consistent_with(store),
                old(store).advances_to(store),
                store.spec_log() == old(store).spec_log(),
                store.spec_upper() == old(store).spec_upper(),
                store.spec_datas() == old(store).spec_datas(),
                store.spec_batches() == old(store).spec_batches(),
                txns_upper <= store.spec_upper(),
                txns_upper == self.spec_known_upper(),
                txns_upper == old(self).spec_known_upper() || (txns_upper == store.spec_upper()
                    && register_ts >= old(self).spec_known_upper()),
                data_id.index < store.spec_datas().len(),
                register_ts < u64::MAX,
            decreases store.spec_upper() - txns_upper,
        {
            self.sync_cache(store);
            if let Some(t) = self.cache.data_since(data_id) {
                return Ok(t);
            }
            if register_ts < txns_upper {
                return Err(txns_upper);
            }
            let rec = TxnsRecord { entry: TxnsEntry::Register(data_id), ts: register_ts, diff: 1 };
            let mut recs: Vec<TxnsRecord> = Vec::new();
            recs.push(rec);
            proof {
                assert(recs@.take(0) =~= Seq::<TxnsRecord>::empty());
                assert(record_refs_ok(recs@[0], store.spec_datas(), store.spec_batches()));
            }
            match store.compare_and_append(txns_upper, register_ts + 1, recs) {
                Ok(()) => {
                    self.note_upper(register_ts + 1);
                    assert(final(store).spec_log() =~= old(store).spec_log().push(rec));
                    proof {
                        assert(self.spec_cache().spec_records().is_prefix_of(store.spec_log())) by {
                            assert(store.spec_log().subrange(0, old(store).spec_log().len() as int)
                                =~= old(store).spec_log());
                        }
                    }
                    return Ok(register_ts);
                },
                Err(u) => {
                    txns_upper = u;
                    self.note_upper(u);
                },
            }
        }
    }

    /// Applies every committed batch at or before `ts` that is not yet applied,
    /// so that reads of the data shards at `ts` no longer wait; returns the
    /// retraction work for the batches it went through.
    pub fn apply_le(&mut self, store: &mut ShardStore, ts: u64) -> (r: Tidy)
        requires
            old(store).wf(),
            old(self).consistent_with(old(store)),
            ts < old(store).spec_upper(),
        ensures
            final(store).wf(),
            final(self).consistent_with(final(store)),
            old(store).advances_to(final(store)),
            final(store).spec_log() == old(store).spec_log(),
            final(store).spec_upper() == old(store).spec_upper(),
            final(store).spec_batches() == old(store).spec_batches(),
            final(store).spec_datas() == apply_all(
                old(store).spec_datas(),
                old(store).spec_batches(),
                unapplied_le(unapplied(old(store).spec_log()), ts),
            ),
            r.wf(),
            r.spec_set() == batch_set(unapplied_le(unapplied(old(store).spec_log()), ts)),
    {
        self.sync_cache(store);
        let us = self.cache.unapplied_batches();
        let ghost log = store.spec_log();
        let ghost datas0 = store.spec_datas();
        let ghost batches0 = store.spec_batches();
        proof {
            lemma_unapplied_records(log, log.len() as int);
            assert forall|m: int|
                #![trigger unapplied_upto(log, log.len() as int)[m]]
                0 <= m < unapplied_upto(log, log.len() as int).len() implies {
                    let u = unapplied_upto(log, log.len() as int)[m];
                    &&& u.batch.batch < batches0.len()
                    &&& u.batch.shard.index < datas0.len()
                    &&& u.ts < store.spec_upper()
                } by {
                let u = unapplied_upto(log, log.len() as int)[m];
                let k = choose|k: int|
                    #![trigger log[k]]
                    0 <= k < log.len() && log[k].diff == 1 && log[k].entry == TxnsEntry::Append(
                        u.batch,
                    ) && log[k].ts == u.ts;
                assert(record_refs_ok(log[k], datas0, batches0));
            }
        }
        let mut tidy = Tidy::new();
        let mut i: usize = 0;
        while i < us.len()
            invariant
                i <= us.len(),
                us@ == unapplied(log),
                store.wf(),
                self.consistent_with(store),
                old(store).advances_to(store),
                log == old(store).spec_log(),
                store.spec_log() == log,
                store.spec_upper() == old(store).spec_upper(),
                store.spec_batches() == batches0,
                datas0 == old(store).spec_datas(),
                batches0 == old(store).spec_batches(),
                store.spec_datas() == apply_all(datas0, batches0, unapplied_le(us@.take(i as int), ts)),
                store.spec_datas().len() == datas0.len(),
                tidy.wf(),
                tidy.spec_set() == batch_set(unapplied_le(us@.take(i as int), ts)),
                forall|m: int|
                    #![trigger unapplied_upto(log, log.len() as int)[m]]
                    0 <= m < unapplied_upto(log, log.len() as int).len() ==> {
                        let u = unapplied_upto(log, log.len() as int)[m];
                        &&& u.batch.batch < batches0.len()
                        &&& u.batch.shard.index < datas0.len()
                        &&& u.ts < store.spec_upper()
                    },
            decreases us.len() - i,
        {
            let u = us[i];
            let ghost done = unapplied_le(us@.take(i as int), ts);
            assert(us@.take(i as int + 1).drop_last() =~= us@.take(i as int));
            assert(us@.take(i as int + 1).last() == u);
            if u.ts <= ts {
                proof {
                    assert(unapplied_upto(log, log.len() as int)[i as int] == u);
                }
                store.apply_batch(u);
                tidy.insert(u.batch);
                proof {
                    let nxt = unapplied_le(us@.take(i as int + 1), ts);
                    assert(nxt == done.push(u));
                    assert(done.push(u).drop_last() =~= done);
                    assert(nxt.map_values(|x: UnappliedBatch| x.batch) =~= done.map_values(
                        |x: UnappliedBatch| x.batch,
                    ).push(u.batch));
                    done.map_values(|x: UnappliedBatch| x.batch).lemma_push_to_set_commute(u.batch);
                    assert(self.spec_cache().spec_records().is_prefix_of(store.spec_log()));
                }
            } else {
                assert(unapplied_le(us@.take(i as int + 1), ts) == done);
            }
            i = i + 1;
        }
        assert(us@.take(us.len() as int) =~= us@);
        tidy
    }

    /// Commits the retractions of `tidy` (those not made already) on their own
    /// at `ts`; when `ts` is closed, returns the least timestamp to try instead.
    pub fn tidy_at(&mut self, store: &mut ShardStore, ts: u64, tidy: Tidy) -> (r: Result<(), u64>)
        requires
            old(store).wf(),
            old(self).consistent_with(old(store)),
            tidy.wf(),
            ts < u64::MAX,
        ensures
            final(store).wf(),
            final(self).consistent_with(final(store)),
            old(store).advances_to(final(store)),
            final(store).spec_datas() == old(store).spec_datas(),
            r is Ok <==> ts >= old(store).spec_upper(),
            r is Ok ==> final(store).spec_upper() == ts + 1 && final(store).spec_log() == old(
                store).spec_log() + retraction_records(
                old(store).spec_log(),
                tidy.spec_retractions(),
                ts,
            ),
            r matches Err(u) ==> ts < u <= old(store).spec_upper() && u == (if ts < old(
                self).spec_known_upper() {
                old(self).spec_known_upper()
            } else {
                old(store).spec_upper()
            }) && final(store).spec_log() == old(store).spec_log() && final(store).spec_upper()
                == old(store).spec_upper(),
    {
        let mut txn = self.begin();
        txn.tidy(tidy);
        let res = txn.commit_at(self, store, ts);
        match res {
            Ok(_) => {
                assert(old(store).spec_log() + retraction_records(
                    old(store).spec_log(),
                    tidy.spec_retractions(),
                    ts,
                ) =~= store.spec_log().subrange(0, old(store).spec_log().len() as int) + store.spec_log().skip(old(store).spec_log().len() as int));
                assert(store.spec_log() =~= store.spec_log().subrange(0, old(store).spec_log().len() as int) + store.spec_log().skip(old(store).spec_log().len() as int));
                Ok(())
            },
            Err(u) => Err(u),
        }
    }
}

} // verus!
