//! Transaction-assembly pipeline for a block-stream indexer.
//!
//! The library watches finalized blocks go by, stitches receipts and their
//! execution outcomes onto in-flight transaction records, decides when a
//! record is final, and produces the durable artifacts: the finalized
//! transaction record, a reverse index from receipt ids to the parent
//! transaction, and a per-indexer progress cursor.

use vstd::prelude::*;

pub mod codec;
pub mod hexutil;
pub mod collector;
pub mod config;
pub mod database;
pub mod indexer;
pub mod storage;
pub mod primitives;

verus! {

/// A block height assigned by the source chain.
pub type BlockHeight = u64;

/// A shard identifier within a block.
pub type ShardId = u64;

} // verus!
