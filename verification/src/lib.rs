//! Core of a weekly-sharded, local-first store for small timestamped text
//! pages: shard placement and naming, page writing with dirty tracking,
//! listing, the id-keyed shard merge used during reconciliation with a remote
//! object store, backup-directory allocation, and the one-shot schema upgrade.

pub mod config;
pub mod listing;
pub mod page;
pub mod storage;
pub mod text;
pub mod time;
