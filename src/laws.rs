//! Properties of the protocol that relate several calls.

use vstd::prelude::*;
use crate::entry::{
    no_double_retraction, retraction_records, unapplied, unapplied_upto, BatchRef, TxnsEntry,
    TxnsRecord, UnappliedBatch,
};
use crate::store::{apply_all, apply_one, record_refs_ok, BatchView, DataShardView, ShardStore};
use crate::txns::{lemma_unapplied_records, unapplied_le};
use crate::txn_write::{commit_records_ok, StagedWrites};
use crate::cache::TxnsCache;
use crate::txns::TxnsHandle;

verus! {

/// A commit at `ts` took the store from `before` to `after`: it was open at
/// `ts` and the txns shard's frontier now stands just past `ts`.
pub open spec fn committed_at(before: &ShardStore, after: &ShardStore, ts: u64) -> bool {
    &&& before.spec_upper() <= ts
    &&& after.spec_upper() == ts + 1
}

/// Timestamps that commit successfully are strictly increasing: once a commit
/// at `t1` went through, a later successful commit, on the store as it grew
/// since, is at a timestamp past `t1`.
pub proof fn lemma_commits_strictly_increase(
    s0: &ShardStore,
    s1: &ShardStore,
    s2: &ShardStore,
    s3: &ShardStore,
    t1: u64,
    t2: u64,
)
    requires
        committed_at(s0, s1, t1),
        s1.advances_to(s2),
        committed_at(s2, s3, t2),
    ensures
        t1 < t2,
{
}

/// An empty transaction commits no record: its commit only moves the frontier.
pub proof fn lemma_empty_commit_writes_nothing(
    log0: Seq<TxnsRecord>,
    log1: Seq<TxnsRecord>,
    batches: Seq<BatchView>,
    ts: u64,
)
    requires
        commit_records_ok(
            log0,
            log1,
            batches,
            Seq::<(crate::entry::ShardId, Seq<crate::entry::Update>)>::empty(),
            Seq::<BatchRef>::empty(),
            ts,
        ),
    ensures
        log1 == log0,
{
    let e: StagedWrites = Seq::empty();
    assert(retraction_records(log0, Seq::<BatchRef>::empty(), ts) == Seq::<TxnsRecord>::empty());
    assert(log1 =~= log1.subrange(0, log0.len() as int) + log1.skip((log0.len() + e.len()) as int));
}

/// The batches of `us` refer to existing data shards and batches, at timestamps
/// that have a successor.
pub open spec fn applicable(
    datas: Seq<DataShardView>,
    batches: Seq<BatchView>,
    us: Seq<UnappliedBatch>,
) -> bool {
    forall|m: int|
        0 <= m < us.len() ==> {
            &&& (#[trigger] us[m]).batch.shard.index < datas.len()
            &&& us[m].batch.batch < batches.len()
            &&& us[m].ts < u64::MAX
        }
}

pub proof fn lemma_apply_all_len(
    datas: Seq<DataShardView>,
    batches: Seq<BatchView>,
    us: Seq<UnappliedBatch>,
)
    requires
        applicable(datas, batches, us),
    ensures
        apply_all(datas, batches, us).len() == datas.len(),
    decreases us.len(),
{
    if us.len() > 0 {
        let pre = us.drop_last();
        assert forall|m: int| 0 <= m < pre.len() implies {
            &&& (#[trigger] pre[m]).batch.shard.index < datas.len()
            &&& pre[m].batch.batch < batches.len()
            &&& pre[m].ts < u64::MAX
        } by {
            assert(pre[m] == us[m]);
        }
        lemma_apply_all_len(datas, batches, pre);
        assert(us[us.len() - 1] == us.last());
    }
}

/// Applying `p` then `q` is applying `p + q`.
pub proof fn lemma_apply_all_concat(
    datas: Seq<DataShardView>,
    batches: Seq<BatchView>,
    p: Seq<UnappliedBatch>,
    q: Seq<UnappliedBatch>,
)
    ensures
        apply_all(datas, batches, p + q) == apply_all(apply_all(datas, batches, p), batches, q),
    decreases q.len(),
{
    if q.len() == 0 {
        assert(p + q =~= p);
    } else {
        assert((p + q).drop_last() =~= p + q.drop_last());
        assert((p + q).last() == q.last());
        lemma_apply_all_concat(datas, batches, p, q.drop_last());
    }
}

/// Frontiers only move forward when batches are applied.
pub proof fn lemma_apply_all_monotone(
    datas: Seq<DataShardView>,
    batches: Seq<BatchView>,
    us: Seq<UnappliedBatch>,
    s: int,
)
    requires
        0 <= s < datas.len(),
        applicable(datas, batches, us),
    ensures
        apply_all(datas, batches, us)[s].upper >= datas[s].upper,
    decreases us.len(),
{
    if us.len() > 0 {
        let pre = us.drop_last();
        assert forall|m: int| 0 <= m < pre.len() implies {
            &&& (#[trigger] pre[m]).batch.shard.index < datas.len()
            &&& pre[m].batch.batch < batches.len()
            &&& pre[m].ts < u64::MAX
        } by {
            assert(pre[m] == us[m]);
        }
        lemma_apply_all_monotone(datas, batches, pre, s);
        lemma_apply_all_len(datas, batches, pre);
        assert(us[us.len() - 1] == us.last());
    }
}

/// After applying `us`, every frontier has passed the timestamp of each batch
/// of `us` on its shard.
pub proof fn lemma_apply_all_done(
    datas: Seq<DataShardView>,
    batches: Seq<BatchView>,
    us: Seq<UnappliedBatch>,
)
    requires
        applicable(datas, batches, us),
    ensures
        forall|m: int|
            0 <= m < us.len() ==> apply_all(datas, batches, us)[(#[trigger] us[m]).batch.shard.index as int].upper
                > us[m].ts,
    decreases us.len(),
{
    if us.len() > 0 {
        let pre = us.drop_last();
        let last = us.last();
        assert forall|m: int| 0 <= m < pre.len() implies {
            &&& (#[trigger] pre[m]).batch.shard.index < datas.len()
            &&& pre[m].batch.batch < batches.len()
            &&& pre[m].ts < u64::MAX
        } by {
            assert(pre[m] == us[m]);
        }
        lemma_apply_all_done(datas, batches, pre);
        lemma_apply_all_len(datas, batches, pre);
        assert(us[us.len() - 1] == last);
        let mid = apply_all(datas, batches, pre);
        assert forall|m: int| 0 <= m < us.len() implies apply_all(datas, batches, us)[(
        #[trigger] us[m]).batch.shard.index as int].upper > us[m].ts by {
            if m < pre.len() {
                assert(us[m] == pre[m]);
                let one = seq![last];
                assert(applicable(mid, batches, one));
                lemma_apply_all_monotone(mid, batches, one, us[m].batch.shard.index as int);
                assert(one.drop_last() =~= Seq::<UnappliedBatch>::empty());
                assert(one.last() == last);
                assert(apply_all(mid, batches, Seq::<UnappliedBatch>::empty()) == mid);
                assert(apply_all(mid, batches, one) == apply_one(mid, batches, last));
            }
        }
    }
}

/// Batches whose shards' frontiers have passed them are applied already:
/// applying them changes nothing.
pub proof fn lemma_apply_all_noop(
    datas: Seq<DataShardView>,
    batches: Seq<BatchView>,
    us: Seq<UnappliedBatch>,
)
    requires
        forall|m: int|
            0 <= m < us.len() ==> datas[(#[trigger] us[m]).batch.shard.index as int].upper > us[m].ts,
    ensures
        apply_all(datas, batches, us) == datas,
    decreases us.len(),
{
    if us.len() > 0 {
        let pre = us.drop_last();
        assert forall|m: int| 0 <= m < pre.len() implies datas[(
        #[trigger] pre[m]).batch.shard.index as int].upper > pre[m].ts by {
            assert(pre[m] == us[m]);
        }
        lemma_apply_all_noop(datas, batches, pre);
        assert(us[us.len() - 1] == us.last());
    }
}

/// Applying is idempotent, also across overlapping calls: applying `p` first
/// and later `p + q` leaves the data shards as applying `p + q` once does. With
/// `q` empty, this is applying the same batches twice.
pub proof fn lemma_apply_idempotent(
    datas: Seq<DataShardView>,
    batches: Seq<BatchView>,
    p: Seq<UnappliedBatch>,
    q: Seq<UnappliedBatch>,
)
    requires
        applicable(datas, batches, p),
    ensures
        apply_all(apply_all(datas, batches, p), batches, p + q) == apply_all(datas, batches, p + q),
{
    let mid = apply_all(datas, batches, p);
    lemma_apply_all_done(datas, batches, p);
    lemma_apply_all_concat(mid, batches, p, q);
    lemma_apply_all_noop(mid, batches, p);
    lemma_apply_all_concat(datas, batches, p, q);
}

/// Applying the same batches twice leaves the data shards as applying them once.
pub proof fn lemma_apply_twice(
    datas: Seq<DataShardView>,
    batches: Seq<BatchView>,
    us: Seq<UnappliedBatch>,
)
    requires
        applicable(datas, batches, us),
    ensures
        apply_all(apply_all(datas, batches, us), batches, us) == apply_all(datas, batches, us),
{
    lemma_apply_idempotent(datas, batches, us, Seq::empty());
    assert(us + Seq::<UnappliedBatch>::empty() =~= us);
}

/// The batches committed at or before `ts` and outstanding in a well-formed
/// store's txns shard may be applied.
pub proof fn lemma_unapplied_applicable(store: &ShardStore, ts: u64)
    requires
        store.wf(),
    ensures
        applicable(
            store.spec_datas(),
            store.spec_batches(),
            unapplied_le(unapplied(store.spec_log()), ts),
        ),
{
    let log = store.spec_log();
    let us = unapplied(log);
    lemma_unapplied_records(log, log.len() as int);
    lemma_unapplied_le_subset(us, ts);
    let le = unapplied_le(us, ts);
    assert forall|m: int| 0 <= m < le.len() implies {
        &&& (#[trigger] le[m]).batch.shard.index < store.spec_datas().len()
        &&& le[m].batch.batch < store.spec_batches().len()
        &&& le[m].ts < u64::MAX
    } by {
        let j = choose|j: int| 0 <= j < us.len() && us[j] == le[m];
        assert(us[j] == unapplied_upto(log, log.len() as int)[j]);
        let k = choose|k: int|
            #![trigger log[k]]
            0 <= k < log.len() && log[k].diff == 1 && log[k].entry == TxnsEntry::Append(
                unapplied_upto(log, log.len() as int)[j].batch,
            ) && log[k].ts == unapplied_upto(log, log.len() as int)[j].ts;
        assert(record_refs_ok(log[k], store.spec_datas(), store.spec_batches()));
    }
}

/// Every batch kept by the timestamp filter is one of the batches filtered.
pub proof fn lemma_unapplied_le_subset(us: Seq<UnappliedBatch>, ts: u64)
    ensures
        forall|m: int|
            0 <= m < unapplied_le(us, ts).len() ==> exists|j: int|
                0 <= j < us.len() && us[j] == #[trigger] unapplied_le(us, ts)[m],
    decreases us.len(),
{
    if us.len() > 0 {
        let pre = us.drop_last();
        lemma_unapplied_le_subset(pre, ts);
        let cur = unapplied_le(us, ts);
        let prev = unapplied_le(pre, ts);
        if us.last().ts <= ts {
            assert(cur == prev.push(us.last()));
        } else {
            assert(cur == prev);
        }
        assert forall|m: int| 0 <= m < cur.len() implies exists|j: int|
            0 <= j < us.len() && us[j] == #[trigger] cur[m] by {
            if m < prev.len() {
                assert(cur[m] == prev[m]);
                let j = choose|j: int| 0 <= j < pre.len() && pre[j] == prev[m];
                assert(us[j] == pre[j]);
            } else {
                assert(us[us.len() - 1] == cur[m]);
            }
        }
    }
}

/// Applying up to `ts` twice, by the same caller or by two, leaves the data
/// shards as applying once does.
pub proof fn lemma_apply_le_idempotent(s0: &ShardStore, s1: &ShardStore, s2: &ShardStore, ts: u64)
    requires
        s0.wf(),
        s1.spec_log() == s0.spec_log(),
        s1.spec_batches() == s0.spec_batches(),
        s1.spec_datas() == apply_all(
            s0.spec_datas(),
            s0.spec_batches(),
            unapplied_le(unapplied(s0.spec_log()), ts),
        ),
        s2.spec_datas() == apply_all(
            s1.spec_datas(),
            s1.spec_batches(),
            unapplied_le(unapplied(s1.spec_log()), ts),
        ),
    ensures
        s2.spec_datas() == s1.spec_datas(),
{
    lemma_unapplied_applicable(s0, ts);
    lemma_apply_twice(s0.spec_datas(), s0.spec_batches(), unapplied_le(unapplied(s0.spec_log()), ts));
}

pub open spec fn ts_sorted(us: Seq<UnappliedBatch>) -> bool {
    forall|i: int, j: int| 0 <= i <= j < us.len() ==> (#[trigger] us[i]).ts <= (#[trigger] us[j]).ts
}

/// The outstanding batches of a well-formed store come in timestamp order.
pub proof fn lemma_unapplied_sorted(log: Seq<TxnsRecord>, n: int)
    requires
        0 <= n <= log.len(),
        forall|i: int, j: int| 0 <= i <= j < log.len() ==> (#[trigger] log[i]).ts <= (
        #[trigger] log[j]).ts,
    ensures
        ts_sorted(unapplied_upto(log, n)),
        n > 0 ==> forall|m: int|
            0 <= m < unapplied_upto(log, n).len() ==> (#[trigger] unapplied_upto(log, n)[m]).ts
                <= log[n - 1].ts,
    decreases n,
{
    if n > 0 {
        lemma_unapplied_sorted(log, n - 1);
        lemma_unapplied_records(log, n - 1);
        let prev = unapplied_upto(log, n - 1);
        let cur = unapplied_upto(log, n);
        assert forall|m: int| 0 <= m < prev.len() implies (#[trigger] prev[m]).ts <= log[n - 1].ts by {
            let k = choose|k: int|
                #![trigger log[k]]
                0 <= k < n - 1 && log[k].diff == 1 && log[k].entry == TxnsEntry::Append(
                    prev[m].batch,
                ) && log[k].ts == prev[m].ts;
            assert(log[k].ts <= log[n - 1].ts);
        }
        if crate::entry::outstanding_at(log, n - 1) {
            assert(cur == prev.push(
                UnappliedBatch { batch: log[n - 1].entry->Append_0, ts: log[n - 1].ts },
            ));
            assert forall|i: int, j: int| 0 <= i <= j < cur.len() implies (#[trigger] cur[i]).ts <= (
            #[trigger] cur[j]).ts by {
                if j < prev.len() {
                    assert(cur[i] == prev[i] && cur[j] == prev[j]);
                } else if i < prev.len() {
                    assert(cur[i] == prev[i]);
                }
            }
            assert forall|m: int| 0 <= m < cur.len() implies (#[trigger] cur[m]).ts <= log[n - 1].ts by {
                if m < prev.len() {
                    assert(cur[m] == prev[m]);
                }
            }
        } else {
            assert(cur == prev);
        }
    }
}

/// When every batch is at or before `t`, the timestamp filter keeps them all.
pub proof fn lemma_unapplied_le_all(us: Seq<UnappliedBatch>, t: u64)
    requires
        forall|m: int| 0 <= m < us.len() ==> (#[trigger] us[m]).ts <= t,
    ensures
        unapplied_le(us, t) == us,
    decreases us.len(),
{
    if us.len() > 0 {
        let pre = us.drop_last();
        assert forall|m: int| 0 <= m < pre.len() implies (#[trigger] pre[m]).ts <= t by {
            assert(pre[m] == us[m]);
        }
        lemma_unapplied_le_all(pre, t);
        assert(us[us.len() - 1] == us.last());
        assert(pre.push(us.last()) =~= us);
    }
}

/// On batches in timestamp order, what is kept up to `t1` is a prefix of what
/// is kept up to a later `t2`.
pub proof fn lemma_unapplied_le_prefix(us: Seq<UnappliedBatch>, t1: u64, t2: u64)
    requires
        ts_sorted(us),
        t1 <= t2,
    ensures
        unapplied_le(us, t2) =~= unapplied_le(us, t1) + unapplied_le(us, t2).skip(
            unapplied_le(us, t1).len() as int,
        ),
        unapplied_le(us, t1).len() <= unapplied_le(us, t2).len(),
    decreases us.len(),
{
    if us.len() > 0 {
        let pre = us.drop_last();
        let l = us.last();
        assert(ts_sorted(pre)) by {
            assert forall|i: int, j: int| 0 <= i <= j < pre.len() implies (#[trigger] pre[i]).ts <= (
            #[trigger] pre[j]).ts by {
                assert(pre[i] == us[i] && pre[j] == us[j]);
            }
        }
        lemma_unapplied_le_prefix(pre, t1, t2);
        let a1 = unapplied_le(pre, t1);
        let a2 = unapplied_le(pre, t2);
        if l.ts <= t1 {
            assert forall|m: int| 0 <= m < pre.len() implies (#[trigger] pre[m]).ts <= t1 by {
                assert(pre[m] == us[m]);
                assert(us[us.len() - 1] == l);
            }
            lemma_unapplied_le_all(pre, t1);
            assert forall|m: int| 0 <= m < pre.len() implies (#[trigger] pre[m]).ts <= t2 by {}
            lemma_unapplied_le_all(pre, t2);
            assert(unapplied_le(us, t2).skip(unapplied_le(us, t1).len() as int) =~= Seq::<
                UnappliedBatch,
            >::empty());
        } else if l.ts <= t2 {
            assert(unapplied_le(us, t1) == a1);
            assert(unapplied_le(us, t2) == a2.push(l));
            assert(a2.push(l).skip(a1.len() as int) =~= a2.skip(a1.len() as int).push(l));
        } else {
            assert(unapplied_le(us, t1) == a1);
            assert(unapplied_le(us, t2) == a2);
        }
    }
}

/// Applying is idempotent across overlapping ranges: applying up to `t1` and
/// later, by the same caller or another, up to `t2` (no earlier than `t1`)
/// leaves the data shards as applying up to `t2` once does.
pub proof fn lemma_apply_le_overlapping(
    s0: &ShardStore,
    s1: &ShardStore,
    s2: &ShardStore,
    t1: u64,
    t2: u64,
)
    requires
        s0.wf(),
        t1 <= t2,
        s1.spec_log() == s0.spec_log(),
        s1.spec_batches() == s0.spec_batches(),
        s1.spec_datas() == apply_all(
            s0.spec_datas(),
            s0.spec_batches(),
            unapplied_le(unapplied(s0.spec_log()), t1),
        ),
        s2.spec_datas() == apply_all(
            s1.spec_datas(),
            s1.spec_batches(),
            unapplied_le(unapplied(s1.spec_log()), t2),
        ),
    ensures
        s2.spec_datas() == apply_all(
            s0.spec_datas(),
            s0.spec_batches(),
            unapplied_le(unapplied(s0.spec_log()), t2),
        ),
{
    let log = s0.spec_log();
    let us = unapplied(log);
    lemma_unapplied_sorted(log, log.len() as int);
    lemma_unapplied_le_prefix(us, t1, t2);
    lemma_unapplied_applicable(s0, t1);
    let p = unapplied_le(us, t1);
    let q = unapplied_le(us, t2).skip(p.len() as int);
    lemma_apply_idempotent(s0.spec_datas(), s0.spec_batches(), p, q);
}

/// A handle stays usable while other handles work on the same store: whatever
/// they commit, register, apply or tidy only advances the store.
pub proof fn lemma_handle_stays_consistent(h: &TxnsHandle, s0: &ShardStore, s1: &ShardStore)
    requires
        h.consistent_with(s0),
        s0.advances_to(s1),
    ensures
        h.consistent_with(s1),
{
    let r = h.spec_cache().spec_records();
    assert(r =~= s1.spec_log().subrange(0, r.len() as int)) by {
        assert forall|i: int| 0 <= i < r.len() implies r[i] == s1.spec_log()[i] by {
            assert(r[i] == s0.spec_log()[i]);
            assert(s0.spec_log()[i] == s1.spec_log()[i]) by {
                assert(s0.spec_log() =~= s1.spec_log().subrange(0, s0.spec_log().len() as int));
            }
        }
    }
}

/// A registration stays as it is while the store advances.
pub proof fn lemma_registration_kept(s0: &ShardStore, s1: &ShardStore, s: crate::entry::ShardId)
    requires
        s0.advances_to(s1),
        crate::entry::registered_at(s0.spec_log(), s) is Some,
    ensures
        crate::entry::registered_at(s1.spec_log(), s) == crate::entry::registered_at(s0.spec_log(), s),
{
    let l0 = s0.spec_log();
    let l1 = s1.spec_log();
    assert(l1 =~= l0 + l1.skip(l0.len() as int));
    crate::entry::lemma_registered_extend(l0, l1.skip(l0.len() as int), s);
}

/// A store's txns shard never holds a double retraction, nor a retraction
/// without a matching outstanding append: every operation keeps the store
/// well formed, whichever handles run them and in whatever order, so a cache
/// that replayed it from the start validates.
pub proof fn lemma_replay_has_no_double_retraction(store: &ShardStore, cache: &TxnsCache)
    requires
        store.wf(),
        cache.spec_records() == store.spec_log(),
    ensures
        no_double_retraction(cache.spec_records()),
{
}

} // verus!
