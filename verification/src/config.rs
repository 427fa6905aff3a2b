//! Configuration surface of an indexer instance: chain selection, start
//! mode, and the resumption decision that picks the first block to process.

use vstd::prelude::*;

verus! {

/// Where an instance starts reading the stream.
#[derive(Clone, Copy, PartialEq, Eq, Structural, Debug)]
pub enum StartOptions {
    /// Start at an explicit height.
    FromBlock { height: u64 },
    /// Resume from the stored cursor; fall back to the latest final block.
    FromInterruption,
    /// Start at the latest final block.
    FromLatest,
}

/// The chain an instance follows, each carrying its start mode.
#[derive(Clone, Copy, PartialEq, Eq, Structural, Debug)]
pub enum ChainId {
    Mainnet(StartOptions),
    Testnet(StartOptions),
}

/// Instance options: the identifier, the metrics port, the storage
/// endpoint and credentials, and the chain selector.
#[derive(Clone, PartialEq, Debug)]
pub struct Opts {
    pub indexer_id: Vec<u8>,
    pub port: u16,
    pub scylla_url: Vec<u8>,
    pub scylla_keyspace: Vec<u8>,
    pub scylla_user: Option<Vec<u8>>,
    pub scylla_password: Option<Vec<u8>>,
    pub chain_id: ChainId,
}

impl Opts {
    /// The start mode, whichever chain was selected.
    pub fn start_options(&self) -> (r: &StartOptions)
        ensures
            *r == (match self.chain_id {
                ChainId::Mainnet(s) => s,
                ChainId::Testnet(s) => s,
            }),
    {
        match &self.chain_id {
            ChainId::Mainnet(start_options) => start_options,
            ChainId::Testnet(start_options) => start_options,
        }
    }

    /// The RPC endpoint used to resolve the latest final block height.
    pub fn rpc_url(&self) -> (r: &'static str)
        ensures
            self.chain_id is Mainnet ==> r@ == "https://rpc.mainnet.near.org"@,
            self.chain_id is Testnet ==> r@ == "https://rpc.testnet.near.org"@,
    {
        match self.chain_id {
            ChainId::Mainnet(_) => "https://rpc.mainnet.near.org",
            ChainId::Testnet(_) => "https://rpc.testnet.near.org",
        }
    }
}

/// The first block to process: an explicit height wins; resumption takes
/// the stored cursor and falls back to the latest final height; otherwise
/// the latest final height.
pub fn start_block_height(start: &StartOptions, stored_cursor: Option<u64>, final_height: u64) -> (r:
    u64)
    ensures
        r == (match *start {
            StartOptions::FromBlock { height } => height,
            StartOptions::FromInterruption => match stored_cursor {
                Some(c) => c,
                None => final_height,
            },
            StartOptions::FromLatest => final_height,
        }),
{
    match start {
        StartOptions::FromBlock { height } => *height,
        StartOptions::FromInterruption => match stored_cursor {
            Some(c) => c,
            None => final_height,
        },
        StartOptions::FromLatest => final_height,
    }
}

} // verus!
