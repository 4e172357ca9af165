use persist_txn::{JemallocProfCtl, ProfStartTime, ShardStore, Tidy, TxnsCache, TxnsHandle};

#[test]
fn empty_commit_skips_timestamps() {
    let mut store = ShardStore::new();
    let mut txns = TxnsHandle::open(&store);
    let apply = txns.begin().commit_at(&mut txns, &mut store, 5).unwrap();
    assert!(apply.is_empty());
    assert_eq!(apply.commit_ts(), 5);
    assert_eq!(store.txns_upper(), 6);
    assert_eq!(store.log_len(), 0);
    assert_eq!(store.num_batches(), 0);
}

#[test]
fn rejected_commit_reports_a_later_timestamp() {
    let mut store = ShardStore::new();
    let mut txns = TxnsHandle::open(&store);
    txns.begin().commit_at(&mut txns, &mut store, 9).unwrap();
    for ts in 0..10 {
        let res = txns.begin().commit_at(&mut txns, &mut store, ts);
        assert_eq!(res, Err(10));
    }
    // Successful commits are at strictly increasing timestamps.
    let a = txns.begin().commit_at(&mut txns, &mut store, 10).unwrap();
    let b = txns.begin().commit_at(&mut txns, &mut store, 11).unwrap();
    assert!(a.commit_ts() < b.commit_ts());
}

#[test]
fn failed_commit_leaves_nothing_visible() {
    let mut store = ShardStore::new();
    let mut stale = TxnsHandle::open(&store);
    let mut txns = TxnsHandle::open(&store);
    let d0 = store.create_data_shard();
    assert_eq!(txns.register(&mut store, 1, d0), Ok(1));
    txns.begin().commit_at(&mut txns, &mut store, 7).unwrap();

    // The stale handle believes the frontier is 0: its first attempt at 3 writes
    // a batch and loses the race; the batch is deleted and the commit reports 8.
    let mut txn = stale.begin();
    txn.write(&d0, "x".into(), String::new(), 1);
    let log_before = store.log_len();
    assert_eq!(txn.commit_at(&mut stale, &mut store, 3), Err(8));
    assert_eq!(store.log_len(), log_before);
    assert_eq!(store.txns_upper(), 8);
    assert_eq!(store.num_batches(), 1);
    assert_eq!(store.data_upper(d0), 0);
    let mut cache = TxnsCache::open(&store);
    cache.update_gt(&store, 7);
    assert_eq!(cache.unapplied_batches().len(), 0);
    assert_eq!(cache.data_snapshot(&store, d0, 7).unwrap().len(), 0);

    // Retried at the reported timestamp, it commits.
    let apply = txn.commit_at(&mut stale, &mut store, 8).unwrap();
    assert!(!apply.is_empty());
    assert_eq!(store.num_batches(), 2);
}

#[test]
fn apply_twice_equals_apply_once() {
    let mut store = ShardStore::new();
    let mut txns = TxnsHandle::open(&store);
    let d0 = store.create_data_shard();
    txns.register(&mut store, 1, d0).unwrap();
    let mut txn = txns.begin();
    txn.write(&d0, "a".into(), "va".into(), 1);
    txn.write(&d0, "b".into(), "vb".into(), 2);
    let apply = txn.commit_at(&mut txns, &mut store, 4).unwrap();

    // Not applied yet: a read at the commit timestamp waits.
    let mut cache = TxnsCache::open(&store);
    cache.update_gt(&store, 4);
    assert!(cache.data_snapshot(&store, d0, 4).is_none());
    assert_eq!(cache.data_snapshot(&store, d0, 3).unwrap().len(), 0);

    let tidy_a = apply.apply(&mut txns, &mut store);
    assert_eq!(tidy_a.len(), 1);
    let once = cache.data_snapshot(&store, d0, 4).unwrap();
    let upper_once = store.data_upper(d0);

    // A second handle applies the same range again.
    let mut other = TxnsHandle::open(&store);
    let tidy_b = other.apply_le(&mut store, 4);
    assert_eq!(tidy_b.len(), 1);
    let twice = cache.data_snapshot(&store, d0, 4).unwrap();
    assert_eq!(once, twice);
    assert_eq!(upper_once, 5);
    assert_eq!(store.data_upper(d0), 5);
    assert_eq!(twice.len(), 2);
    assert_eq!(twice[0].key, "a");
    assert_eq!(twice[0].val, "va");
    assert_eq!(twice[1].key, "b");
    assert_eq!(twice[1].diff, 2);
}

#[test]
fn register_is_idempotent_and_fenced() {
    let mut store = ShardStore::new();
    let mut txns = TxnsHandle::open(&store);
    let d0 = store.create_data_shard();
    let d1 = store.create_data_shard();
    assert_eq!(txns.register(&mut store, 3, d0), Ok(3));
    assert_eq!(txns.register(&mut store, 8, d0), Ok(3));
    assert_eq!(txns.register(&mut store, 2, d1), Err(4));
    assert_eq!(txns.register(&mut store, 4, d1), Ok(4));
    let mut cache = TxnsCache::open(&store);
    cache.update_ge(&store, 5);
    assert_eq!(cache.data_since(d0), Some(3));
    assert_eq!(cache.data_since(d1), Some(4));
    assert_eq!(cache.progress(), 5);
    assert_eq!(cache.min_unapplied_ts(), 5);
}

#[test]
fn tidy_merge_keeps_each_batch_once() {
    let mut store = ShardStore::new();
    let mut txns = TxnsHandle::open(&store);
    let d0 = store.create_data_shard();
    txns.register(&mut store, 1, d0).unwrap();
    let mut txn = txns.begin();
    txn.write(&d0, "k".into(), String::new(), 1);
    txn.commit_at(&mut txns, &mut store, 2).unwrap();
    let t1 = txns.apply_le(&mut store, 2);
    let t2 = txns.apply_le(&mut store, 2);
    assert_eq!(t1.len(), 1);
    let b = t1.get(0);
    let mut t = Tidy::new();
    assert!(t.is_empty());
    t.merge(t1);
    t.merge(t2);
    assert_eq!(t.len(), 1);
    assert!(t.contains(b));

    // Retracting twice in one commit is filtered to once.
    txns.tidy_at(&mut store, 3, t).unwrap();
    assert_eq!(store.log_len(), 3);
    let mut cache = TxnsCache::open(&store);
    cache.update_gt(&store, 3);
    assert_eq!(cache.validate(), Ok(()));
    assert!(!cache.is_outstanding(b));
}

#[test]
fn prof_ctl_tracks_sessions() {
    assert!(JemallocProfCtl::get(false, true).is_none());
    let ctl = JemallocProfCtl::get(true, false).unwrap();
    assert!(ctl.get_md().start_time.is_none());
    let mut ctl = JemallocProfCtl::get(true, true).unwrap();
    assert!(matches!(ctl.get_md().start_time, Some(ProfStartTime::TimeImmemorial)));
    ctl.mark_activated();
    assert!(matches!(ctl.get_md().start_time, Some(ProfStartTime::TimeImmemorial)));
    ctl.mark_deactivated();
    assert!(ctl.get_md().start_time.is_none());
    ctl.mark_activated();
    assert!(matches!(ctl.get_md().start_time, Some(ProfStartTime::Instant(_))));
}

#[test]
fn prof_ctl_reads_stats() {
    let ctl = JemallocProfCtl::get(true, false).unwrap();
    let stats = ctl.stats().unwrap();
    assert!(stats.active >= stats.allocated);
}

fn build_three_commits() -> (ShardStore, TxnsHandle, persist_txn::ShardId) {
    let mut store = ShardStore::new();
    let mut txns = TxnsHandle::open(&store);
    let d0 = store.create_data_shard();
    txns.register(&mut store, 1, d0).unwrap();
    for (ts, key) in [(2u64, "a"), (4, "b"), (6, "c")] {
        let mut txn = txns.begin();
        txn.write(&d0, key.into(), String::new(), 1);
        txn.commit_at(&mut txns, &mut store, ts).unwrap();
    }
    (store, txns, d0)
}

#[test]
fn apply_overlapping_ranges() {
    let (mut split, mut txns_a, d0) = build_three_commits();
    let mut other = TxnsHandle::open(&split);
    txns_a.apply_le(&mut split, 3);
    assert_eq!(split.data_upper(d0), 3);
    other.apply_le(&mut split, 5);

    let (mut once, mut txns_b, _) = build_three_commits();
    txns_b.apply_le(&mut once, 5);

    assert_eq!(split.data_upper(d0), 5);
    assert_eq!(once.data_upper(d0), 5);
    let keys = |s: &ShardStore| -> Vec<String> {
        s.data_contents_le(d0, 10).into_iter().map(|u| u.key).collect()
    };
    assert_eq!(keys(&split), keys(&once));
    assert_eq!(keys(&once), vec!["a".to_owned(), "b".to_owned()]);
}
