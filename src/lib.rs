//! Durable multi-shard transactions over append-only, timestamp-ordered shards,
//! with a verified commit / apply / tidy protocol.
//!
//! - `store`: the shards: one txns shard guarded by compare-and-append, data
//!   shards with a published frontier, and a pool of immutable batches.
//! - `entry`: the records of the txns shard and what a log of them means.
//! - `txn_write`: staging writes into a `Txn` and committing it atomically.
//! - `txns`: the `TxnsHandle` coordinator: registration, apply, tidy.
//! - `cache`: `TxnsCache`, a replay of the txns shard and its queries.
//! - `tidy`: pending retraction work.
//! - `laws`: properties that relate several calls.
//! - `prof`, `jeheap`: the allocator's heap profiling switches, statistics
//!   and heap dump reader.

pub mod cache;
pub mod entry;
pub mod jeheap;
pub mod laws;
pub mod prof;
pub mod store;
pub mod tidy;
pub mod txn_write;
pub mod txns;

pub use entry::{copy_updates, BatchRef, ShardId, TxnsEntry, TxnsRecord, UnappliedBatch, Update};
pub use prof::{LG_PROF_SAMPLE, JemallocProfCtl, JemallocProfMetadata, JemallocStats, ProfStartTime};
pub use store::{DataUpdate, ShardStore};
pub use tidy::Tidy;
pub use cache::TxnsCache;
pub use txn_write::{Txn, TxnApply};
pub use txns::TxnsHandle;
pub use laws::{
    applicable, committed_at, lemma_apply_idempotent, lemma_apply_le_idempotent,
    lemma_apply_le_overlapping, lemma_apply_twice,
    lemma_commits_strictly_increase, lemma_empty_commit_writes_nothing,
    lemma_handle_stays_consistent, lemma_registration_kept,
    lemma_replay_has_no_double_retraction,
};
pub use jeheap::{parse_jeheap, HeapDump, HeapDumpError, SampledStack};
