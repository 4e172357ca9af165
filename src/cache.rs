//! The read side: a replay of the txns shard's records, with the queries that
//! commit, apply and readers need.

use vstd::prelude::*;
use crate::entry::{
    append_count, lemma_registered_extend, no_double_retraction, record_ok, registered_at,
    retraction_records, unapplied, unapplied_upto, BatchRef, ShardId, TxnsEntry, TxnsRecord,
    UnappliedBatch, Update,
};
use crate::store::{contents_le, ShardStore};
use crate::tidy::Tidy;

verus! {

/// The timestamp of the last append for shard `s` at or before `as_of`.
pub open spec fn latest_write(log: Seq<TxnsRecord>, s: ShardId, as_of: u64) -> Option<u64>
    decreases log.len(),
{
    if log.len() == 0 {
        None
    } else if log.last().diff == 1 && log.last().ts <= as_of && (log.last().entry matches TxnsEntry::Append(b) && b.shard == s) {
        Some(log.last().ts)
    } else {
        latest_write(log.drop_last(), s, as_of)
    }
}

/// A replay of the txns shard up to (not including) timestamp `progress`.
#[derive(Debug)]
pub struct TxnsCache {
    progress: u64,
    records: Vec<TxnsRecord>,
}

impl TxnsCache {
    /// The timestamp up to which the txns shard has been replayed (exclusive).
    pub closed spec fn spec_progress(&self) -> u64 {
        self.progress
    }

    /// The records replayed so far, in log order.
    pub closed spec fn spec_records(&self) -> Seq<TxnsRecord> {
        self.records@
    }

    pub open spec fn wf(&self) -> bool {
        forall|i: int|
            0 <= i < self.spec_records().len() ==> (#[trigger] self.spec_records()[i]).diff == 1
                || self.spec_records()[i].diff == -1
    }

    /// The replay is a prefix of the store's txns shard.
    pub open spec fn consistent_with(&self, store: &ShardStore) -> bool {
        &&& self.spec_records().is_prefix_of(store.spec_log())
        &&& self.spec_progress() <= store.spec_upper()
    }

    /// A cache over `store` that has replayed nothing yet.
    pub fn open(store: &ShardStore) -> (r: TxnsCache)
        ensures
            r.wf(),
            r.consistent_with(store),
            r.spec_progress() == 0,
            r.spec_records().len() == 0,
    {
        let r = TxnsCache { progress: 0, records: Vec::new() };
        assert(r.spec_records() =~= store.spec_log().subrange(0, 0));
        r
    }

    /// Replays every record of the store's txns shard.
    fn refresh(&mut self, store: &ShardStore)
        requires
            old(self).consistent_with(store),
            store.wf(),
        ensures
            final(self).wf(),
            final(self).consistent_with(store),
            final(self).spec_records() == store.spec_log(),
            final(self).spec_progress() == store.spec_upper(),
    {
        let n = store.log_len();
        let mut i: usize = self.records.len();
        while i < n
            invariant
                n == store.spec_log().len(),
                self.records.len() == i,
                i <= n,
                self.records@ == store.spec_log().subrange(0, i as int),
            decreases n - i,
        {
            self.records.push(store.log_record(i));
            assert(self.records@ =~= store.spec_log().subrange(0, i as int + 1));
            i = i + 1;
        }
        assert(self.records@ =~= store.spec_log());
        self.progress = store.txns_upper();
        assert(self.spec_records().is_prefix_of(store.spec_log())) by {
            assert(store.spec_log().subrange(0, store.spec_log().len() as int) =~= store.spec_log());
        }
        assert forall|i: int| 0 <= i < self.spec_records().len() implies (
        #[trigger] self.spec_records()[i]).diff == 1 || self.spec_records()[i].diff == -1 by {
            assert(crate::store::record_refs_ok(store.spec_log()[i], store.spec_datas(), store.spec_batches()));
        }
    }

    /// Replays the txns shard until its progress passes `ts`.
    pub fn update_gt(&mut self, store: &ShardStore, ts: u64)
        requires
            old(self).consistent_with(store),
            store.wf(),
            ts < store.spec_upper(),
        ensures
            final(self).wf(),
            final(self).consistent_with(store),
            final(self).spec_records() == store.spec_log(),
            final(self).spec_progress() == store.spec_upper(),
            final(self).spec_progress() > ts,
    {
        self.refresh(store);
    }

    /// Replays the txns shard until its progress reaches `ts`.
    pub fn update_ge(&mut self, store: &ShardStore, ts: u64)
        requires
            old(self).consistent_with(store),
            store.wf(),
            ts <= store.spec_upper(),
        ensures
            final(self).wf(),
            final(self).consistent_with(store),
            final(self).spec_records() == store.spec_log(),
            final(self).spec_progress() == store.spec_upper(),
            final(self).spec_progress() >= ts,
    {
        self.refresh(store);
    }

    pub fn progress(&self) -> (r: u64)
        ensures
            r == self.spec_progress(),
    {
        self.progress
    }

    /// Counts the append and retraction records of `b` among the first `n`
    /// records: their difference is its multiplicity there.
    fn count_in(&self, n: usize, b: BatchRef) -> (r: (usize, usize))
        requires
            self.wf(),
            n <= self.spec_records().len(),
        ensures
            r.0 - r.1 == append_count(self.spec_records().take(n as int), b),
            r.0 <= n,
            r.1 <= n,
    {
        let mut plus: usize = 0;
        let mut minus: usize = 0;
        let mut i: usize = 0;
        while i < n
            invariant
                self.wf(),
                i <= n,
                n <= self.records.len(),
                plus <= i,
                minus <= i,
                plus - minus == append_count(self.records@.take(i as int), b),
            decreases n - i,
        {
            assert(self.records@.take(i as int + 1).drop_last() =~= self.records@.take(i as int));
            assert(self.records@[i as int].diff == 1 || self.records@[i as int].diff == -1);
            if self.records[i].entry == TxnsEntry::Append(b) {
                if self.records[i].diff == 1 {
                    plus = plus + 1;
                } else {
                    minus = minus + 1;
                }
            }
            i = i + 1;
        }
        (plus, minus)
    }

    /// Whether `b` is appended and not retracted in the replay.
    pub fn is_outstanding(&self, b: BatchRef) -> (r: bool)
        requires
            self.wf(),
        ensures
            r <==> append_count(self.spec_records(), b) == 1,
    {
        let (plus, minus) = self.count_in(self.records.len(), b);
        assert(self.records@.take(self.records.len() as int) =~= self.records@);
        plus > minus && plus - minus == 1
    }

    /// The timestamp at which `s` was registered, if it was.
    pub fn data_since(&self, s: ShardId) -> (r: Option<u64>)
        ensures
            r == registered_at(self.spec_records(), s),
    {
        let mut i: usize = 0;
        while i < self.records.len()
            invariant
                i <= self.records.len(),
                registered_at(self.records@.take(i as int), s) is None,
            decreases self.records.len() - i,
        {
            assert(self.records@.take(i as int + 1).drop_last() =~= self.records@.take(i as int));
            if self.records[i].entry == TxnsEntry::Register(s) {
                proof {
                    let l = self.records@;
                    assert(l.take(i as int + 1) + l.skip(i as int + 1) =~= l);
                    lemma_registered_extend(l.take(i as int + 1), l.skip(i as int + 1), s);
                }
                return Some(self.records[i].ts);
            }
            i = i + 1;
        }
        assert(self.records@.take(i as int) =~= self.records@);
        None
    }

    /// The batches appended and not yet retracted, in log order.
    pub fn unapplied_batches(&self) -> (r: Vec<UnappliedBatch>)
        requires
            self.wf(),
        ensures
            r@ == unapplied(self.spec_records()),
    {
        let mut r: Vec<UnappliedBatch> = Vec::new();
        let mut i: usize = 0;
        while i < self.records.len()
            invariant
                self.wf(),
                i <= self.records.len(),
                r@ == unapplied_upto(self.records@, i as int),
            decreases self.records.len() - i,
        {
            let rec = self.records[i];
            if rec.diff == 1 {
                if let TxnsEntry::Append(b) = rec.entry {
                    if self.is_outstanding(b) {
                        r.push(UnappliedBatch { batch: b, ts: rec.ts });
                    }
                }
            }
            i = i + 1;
        }
        r
    }

    /// The earliest timestamp with outstanding unapplied work: that of the first
    /// unapplied batch, or the progress when there is none.
    pub fn min_unapplied_ts(&self) -> (r: u64)
        requires
            self.wf(),
        ensures
            unapplied(self.spec_records()).len() > 0 ==> r == unapplied(self.spec_records())[0].ts,
            unapplied(self.spec_records()).len() == 0 ==> r == self.spec_progress(),
    {
        let u = self.unapplied_batches();
        if u.len() > 0 {
            u[0].ts
        } else {
            self.progress
        }
    }

    /// Checks the replay: every retraction matches a prior, still outstanding
    /// append, and no batch is appended while outstanding.
    pub fn validate(&self) -> (r: Result<(), String>)
        requires
            self.wf(),
        ensures
            r is Ok <==> no_double_retraction(self.spec_records()),
    {
        let mut i: usize = 0;
        while i < self.records.len()
            invariant
                self.wf(),
                i <= self.records.len(),
                forall|k: int| 0 <= k < i ==> record_ok(#[trigger] self.records@.take(k), self.records@[k]),
            decreases self.records.len() - i,
        {
            let rec = self.records[i];
            let ok = match rec.entry {
                TxnsEntry::Register(_) => rec.diff == 1,
                TxnsEntry::Append(b) => {
                    let (plus, minus) = self.count_in(i, b);
                    if rec.diff == 1 {
                        plus == minus
                    } else {
                        plus > minus && plus - minus == 1
                    }
                },
            };
            if !ok {
                assert(!record_ok(self.records@.take(i as int), self.records@[i as int]));
                return Err("retraction without a matching outstanding append".to_owned());
            }
            assert(record_ok(self.records@.take(i as int), self.records@[i as int]));
            i = i + 1;
        }
        Ok(())
    }

    /// The retraction records, at `ts`, for those batches of `tidy` that are
    /// still outstanding in the replay; the others were retracted already.
    pub fn filter_retractions(&self, tidy: &Tidy, ts: u64) -> (r: Vec<TxnsRecord>)
        requires
            self.wf(),
        ensures
            r@ == retraction_records(self.spec_records(), tidy.spec_retractions(), ts),
    {
        let mut r: Vec<TxnsRecord> = Vec::new();
        let mut i: usize = 0;
        while i < tidy.len()
            invariant
                self.wf(),
                i <= tidy.spec_retractions().len(),
                r@ == retraction_records(
                    self.spec_records(),
                    tidy.spec_retractions().take(i as int),
                    ts,
                ),
            decreases tidy.spec_retractions().len() - i,
        {
            let b = tidy.get(i);
            assert(tidy.spec_retractions().take(i as int + 1).drop_last() =~= tidy.spec_retractions().take(
                i as int,
            ));
            if self.is_outstanding(b) {
                r.push(TxnsRecord { entry: TxnsEntry::Append(b), ts, diff: -1 });
            }
            i = i + 1;
        }
        assert(tidy.spec_retractions().take(i as int) =~= tidy.spec_retractions());
        r
    }

    /// The timestamp of the last append for `s` at or before `as_of` in the replay.
    fn latest_write_le(&self, s: ShardId, as_of: u64) -> (r: Option<u64>)
        ensures
            r == latest_write(self.spec_records(), s, as_of),
    {
        let mut i: usize = self.records.len();
        assert(self.records@.take(i as int) =~= self.records@);
        while i > 0
            invariant
                i <= self.records.len(),
                latest_write(self.records@, s, as_of) == latest_write(self.records@.take(i as int), s, as_of),
            decreases i,
        {
            let rec = self.records[i - 1];
            assert(self.records@.take(i as int).drop_last() =~= self.records@.take(i as int - 1));
            if rec.diff == 1 && rec.ts <= as_of {
                if let TxnsEntry::Append(b) = rec.entry {
                    if b.shard == s {
                        return Some(rec.ts);
                    }
                }
            }
            i = i - 1;
        }
        None
    }

    /// The contents of data shard `s` as of `as_of`, once every append for it at
    /// or before `as_of` is applied; `None` while a read there would block.
    pub fn data_snapshot(&self, store: &ShardStore, s: ShardId, as_of: u64) -> (r: Option<Vec<Update>>)
        requires
            s.index < store.spec_datas().len(),
            as_of < self.spec_progress(),
        ensures
            r is Some <==> match latest_write(self.spec_records(), s, as_of) {
                Some(t) => store.spec_datas()[s.index as int].upper > t,
                None => true,
            },
            r matches Some(v) ==> v@ == contents_le(store.spec_datas()[s.index as int].contents, as_of),
    {
        let ready = match self.latest_write_le(s, as_of) {
            Some(t) => store.data_upper(s) > t,
            None => true,
        };
        if ready {
            Some(store.data_contents_le(s, as_of))
        } else {
            None
        }
    }
}

} // verus!
