use persist_txn::{ShardId, ShardStore, Tidy, TxnsCache, TxnsHandle};

fn expect_register(txns: &mut TxnsHandle, store: &mut ShardStore, ts: u64) -> ShardId {
    let data_id = store.create_data_shard();
    assert_eq!(txns.register(store, ts, data_id), Ok(ts));
    data_id
}

fn expect_commit_at(
    txns: &mut TxnsHandle,
    store: &mut ShardStore,
    ts: u64,
    data_id: ShardId,
    keys: &[&str],
) -> Tidy {
    let mut txn = txns.begin();
    for key in keys {
        txn.write(&data_id, (*key).to_owned(), String::new(), 1);
    }
    let apply = txn.commit_at(txns, store, ts).unwrap();
    apply.apply(txns, store)
}

fn expect_snapshot(
    cache: &mut TxnsCache,
    store: &ShardStore,
    data_id: ShardId,
    as_of: u64,
) -> Vec<String> {
    cache.update_gt(store, as_of);
    let updates = cache.data_snapshot(store, data_id, as_of).unwrap();
    updates.into_iter().map(|u| u.key).collect()
}

#[test]
fn commit_at() {
    let mut store = ShardStore::new();
    let mut txns = TxnsHandle::open(&store);
    let mut cache = TxnsCache::open(&store);
    let d0 = expect_register(&mut txns, &mut store, 1);
    let d1 = expect_register(&mut txns, &mut store, 2);

    // Can merge two txns. Can have multiple data shards in a txn.
    let mut txn = txns.begin();
    txn.write(&d0, "0".into(), String::new(), 1);
    let mut other = txns.begin();
    other.write(&d0, "1".into(), String::new(), 1);
    other.write(&d1, "A".into(), String::new(), 1);
    txn.merge(other);
    txn.commit_at(&mut txns, &mut store, 3).unwrap();

    // Can commit an empty txn. Can "skip" timestamps.
    txns.begin().commit_at(&mut txns, &mut store, 5).unwrap();

    // Txn cannot be committed at a closed out time. The Err includes the
    // earliest committable time. Failed txn can commit on retry.
    let mut txn = txns.begin();
    txn.write(&d0, "2".into(), String::new(), 1);
    assert_eq!(txn.commit_at(&mut txns, &mut store, 4), Err(6));
    txn.commit_at(&mut txns, &mut store, 6).unwrap();
    txns.apply_le(&mut store, 6);

    let expected_d0 = vec!["0".to_owned(), "1".to_owned(), "2".to_owned()];
    let actual_d0 = expect_snapshot(&mut cache, &store, d0, 6);
    assert_eq!(actual_d0, expected_d0);

    let expected_d1 = vec!["A".to_owned()];
    let actual_d1 = expect_snapshot(&mut cache, &store, d1, 6);
    assert_eq!(actual_d1, expected_d1);
}

#[test]
fn apply_and_tidy() {
    let mut store = ShardStore::new();
    let mut txns = TxnsHandle::open(&store);
    let mut cache = TxnsCache::open(&store);
    let d0 = expect_register(&mut txns, &mut store, 1);

    // Non-empty txn means non-empty apply. Min unapplied ts is the commit ts.
    let mut txn = txns.begin();
    txn.write(&d0, "2".into(), String::new(), 1);
    let apply_2 = txn.commit_at(&mut txns, &mut store, 2).unwrap();
    assert_eq!(apply_2.is_empty(), false);
    cache.update_gt(&store, 2);
    assert_eq!(cache.min_unapplied_ts(), 2);
    assert_eq!(cache.unapplied_batches().len(), 1);

    // Running the apply unblocks reads but does not advance the min unapplied ts.
    let tidy_2 = apply_2.apply(&mut txns, &mut store);
    assert_eq!(cache.min_unapplied_ts(), 2);

    // Running the tidy advances the min unapplied ts.
    txns.tidy_at(&mut store, 3, tidy_2).unwrap();
    cache.update_gt(&store, 3);
    assert_eq!(cache.min_unapplied_ts(), 4);
    assert_eq!(cache.unapplied_batches().len(), 0);

    // We can also sneak the tidy into a normal txn. Tidies copy across txn merges.
    let tidy_4 = expect_commit_at(&mut txns, &mut store, 4, d0, &["4"]);
    cache.update_gt(&store, 4);
    assert_eq!(cache.min_unapplied_ts(), 4);
    let mut txn0 = txns.begin();
    txn0.write(&d0, "5".into(), String::new(), 1);
    txn0.tidy(tidy_4);
    let mut txn1 = txns.begin();
    txn1.merge(txn0);
    let apply_5 = txn1.commit_at(&mut txns, &mut store, 5).unwrap();
    cache.update_gt(&store, 5);
    assert_eq!(cache.min_unapplied_ts(), 5);
    let tidy_5 = apply_5.apply(&mut txns, &mut store);

    // It's fine to drop a tidy, someone else will do it eventually.
    let tidy_6 = expect_commit_at(&mut txns, &mut store, 6, d0, &["6"]);
    txns.tidy_at(&mut store, 7, tidy_6).unwrap();
    cache.update_gt(&store, 7);
    assert_eq!(cache.min_unapplied_ts(), 8);

    // Also fine if we don't drop it, but instead do it late (no-op but
    // consumes a ts).
    txns.tidy_at(&mut store, 8, tidy_5).unwrap();
    cache.update_gt(&store, 8);
    assert_eq!(cache.min_unapplied_ts(), 9);

    // Tidies can be merged and also can be stolen back out of a txn.
    let tidy_9 = expect_commit_at(&mut txns, &mut store, 9, d0, &["9"]);
    let tidy_10 = expect_commit_at(&mut txns, &mut store, 10, d0, &["10"]);
    let mut txn = txns.begin();
    txn.tidy(tidy_9);
    let mut tidy_9 = txn.take_tidy();
    tidy_9.merge(tidy_10);
    txns.tidy_at(&mut store, 11, tidy_9).unwrap();
    cache.update_gt(&store, 11);
    assert_eq!(cache.min_unapplied_ts(), 12);

    // Can't tidy at an already committed ts.
    let tidy_12 = expect_commit_at(&mut txns, &mut store, 12, d0, &["12"]);
    assert_eq!(txns.tidy_at(&mut store, 12, tidy_12), Err(13));
}

#[test]
fn conflicting_writes() {
    // Deterministic stand-in for wall-clock jitter.
    fn jitter(idx: usize, round: usize) -> u64 {
        ((idx * 7 + round * 13) % 20) as u64
    }

    let mut store = ShardStore::new();
    let mut txns = TxnsHandle::open(&store);
    let mut cache = TxnsCache::open(&store);
    let d0 = expect_register(&mut txns, &mut store, 1);

    const NUM_WRITES: usize = 25;
    // Each task has its own handle on the same txns shard; the steps of the
    // tasks are interleaved phase by phase, so most handles act on a stale
    // view of the txns shard.
    let mut tasks = Vec::new();
    for idx in 0..NUM_WRITES {
        let mut txn = txns.begin();
        txn.write(&d0, format!("{:05}", idx), String::new(), 1);
        let handle = TxnsHandle::open(&store);
        tasks.push((idx, txn, handle));
    }
    let mut registered = Vec::new();
    for (idx, txn, mut handle) in tasks {
        let register_ts = handle.register(&mut store, 1, d0).unwrap();
        println!("{} registered at {}", idx, register_ts);
        registered.push((idx, txn, handle, register_ts));
    }
    let mut committed = Vec::new();
    for (idx, txn, mut handle, register_ts) in registered.into_iter().rev() {
        let mut commit_ts = register_ts + 1 + jitter(idx, 0);
        let apply = loop {
            match txn.commit_at(&mut handle, &mut store, commit_ts) {
                Ok(apply) => break apply,
                Err(new_commit_ts) => commit_ts = new_commit_ts,
            }
        };
        println!("{} committed at {}", idx, commit_ts);
        committed.push((idx, handle, apply, commit_ts));
    }
    let mut applied = Vec::new();
    for (idx, mut handle, apply, commit_ts) in committed {
        let tidy = apply.apply(&mut handle, &mut store);
        applied.push((idx, handle, tidy, commit_ts));
    }
    let mut commit_tss = Vec::new();
    for (idx, mut handle, tidy, commit_ts) in applied {
        let mut txn = handle.begin();
        txn.tidy(tidy);
        let mut tidy_ts = commit_ts + jitter(idx, 1);
        loop {
            match txn.commit_at(&mut handle, &mut store, tidy_ts) {
                Ok(apply) => {
                    println!("{} tidied at {}", idx, tidy_ts);
                    assert!(apply.is_empty());
                    break;
                }
                Err(new_tidy_ts) => tidy_ts = new_tidy_ts,
            }
        }
        commit_tss.push(commit_ts);
    }

    let max_commit_ts = commit_tss.into_iter().max().unwrap_or_default();

    let expected = (0..NUM_WRITES)
        .map(|x| format!("{:05}", x))
        .collect::<Vec<_>>();
    let mut actual = expect_snapshot(&mut cache, &store, d0, max_commit_ts);
    actual.sort();
    assert_eq!(actual, expected);
}

#[test]
fn tidy_race() {
    let mut store = ShardStore::new();
    let mut txns0 = TxnsHandle::open(&store);
    let d0 = expect_register(&mut txns0, &mut store, 1);

    // Commit something and apply it, but don't tidy yet.
    let tidy0 = expect_commit_at(&mut txns0, &mut store, 2, d0, &["foo"]);

    // Now open an independent TxnsHandle, commit, apply, and tidy.
    let mut txns1 = TxnsHandle::open(&store);
    let d1 = expect_register(&mut txns1, &mut store, 3);
    let tidy1 = expect_commit_at(&mut txns1, &mut store, 4, d1, &["foo"]);
    let () = txns1.tidy_at(&mut store, 5, tidy1).unwrap();

    // Now try the first handle's tidy0. tidy1 has already done the retraction for
    // it, so this needs to be careful not to double-retract.
    let () = txns0.tidy_at(&mut store, 6, tidy0).unwrap();

    // Replay a cache from the beginning and make sure we don't see a double
    // retraction.
    let mut cache = TxnsCache::open(&store);
    cache.update_gt(&store, 6);
    assert_eq!(cache.validate(), Ok(()));
}
