//! End-to-end scenarios of the assembly pipeline, driven through the
//! in-memory storage backend.

use tx_indexer::collector::{BlockMessage, IndexedShard};
use tx_indexer::config::{start_block_height, ChainId, Opts, StartOptions};
use tx_indexer::database::{BlockIndexDb, ChunkRow, InMemoryDb, QueryError, StateChangeRow, StateChangesDb, StateKind};
use tx_indexer::primitives::{BlockHeightShardId, BlockRecord};
use tx_indexer::indexer::TxIndexer;
use tx_indexer::primitives::{
    AccountId, CryptoHash, ExecutionOutcomeView, ExecutionOutcomeWithIdView, ExecutionStatusView,
    FinalExecutionStatus, IndexerTransactionWithOutcome, ReceiptView, SignedTransactionView,
};

fn h(n: u64) -> CryptoHash {
    CryptoHash { w0: n, w1: 0, w2: 0, w3: 0 }
}

fn account(name: &str) -> AccountId {
    AccountId { bytes: name.as_bytes().to_vec() }
}

fn outcome(id: CryptoHash, status: ExecutionStatusView, spawned: Vec<CryptoHash>) -> ExecutionOutcomeWithIdView {
    ExecutionOutcomeWithIdView {
        id,
        outcome: ExecutionOutcomeView { status, receipt_ids: spawned, gas_burnt: 7, tokens_burnt: 3 },
    }
}

fn tx(hash: CryptoHash, signer: &str, receiver: &str) -> SignedTransactionView {
    SignedTransactionView {
        hash,
        signer_id: account(signer),
        receiver_id: account(receiver),
        priority_fee: 1,
        nonce: 42,
    }
}

fn block(height: u64, shard: IndexedShard) -> BlockMessage {
    BlockMessage { block_height: height, block_hash: h(9000 + height), shards: vec![shard] }
}

fn tx_shard(t: SignedTransactionView, own_outcome: ExecutionOutcomeWithIdView) -> IndexedShard {
    IndexedShard {
        shard_id: 0,
        transactions: vec![IndexerTransactionWithOutcome { transaction: t, outcome: own_outcome }],
        receipts: vec![],
        execution_outcomes: vec![],
    }
}

fn resolution_shard(receipt: ReceiptView, o: ExecutionOutcomeWithIdView) -> IndexedShard {
    IndexedShard { shard_id: 0, transactions: vec![], receipts: vec![receipt], execution_outcomes: vec![o] }
}

fn fresh_indexer(retention: u64) -> TxIndexer {
    TxIndexer::new(InMemoryDb::new(), b"main-0".to_vec(), retention)
}

#[test]
fn self_transfer_local_receipt() {
    // Block 100: tx T with signer == receiver, spawning R1; block 101
    // resolves R1 with a success value.
    let t = h(1);
    let r1 = h(2);
    let mut ix = fresh_indexer(10_000);
    let b100 = block(
        100,
        tx_shard(tx(t, "alice", "alice"), outcome(t, ExecutionStatusView::SuccessReceiptId(r1), vec![r1])),
    );
    let b101 = block(
        101,
        resolution_shard(
            ReceiptView { receipt_id: r1, priority: 0 },
            outcome(r1, ExecutionStatusView::SuccessValue(b"ok".to_vec()), vec![]),
        ),
    );
    assert_eq!(ix.handle_streamer_message(&b100), Ok(100));
    assert_eq!(ix.handle_streamer_message(&b101), Ok(101));

    let d = ix.db.get_transaction_by_hash(t).expect("persisted record decodes");
    assert_eq!(d.status, FinalExecutionStatus::SuccessValue(b"ok".to_vec()));
    assert_eq!(d.receipts.len(), 1);
    assert_eq!(d.receipts[0].receipt_id, r1);
    assert_eq!(d.receipts_outcome.len(), 1);
    assert_eq!(d.receipts_outcome[0].id, r1);
    assert_eq!(d.transaction_outcome.id, t);

    // The receipt index resolves R1 back to T, anchored at block 100.
    assert_eq!(ix.db.get_receipt(r1), Some((t, 100, 0)));
    assert_eq!(ix.db.get_meta(&b"main-0".to_vec()), Some(101));

    // The local receipt is omitted from the with-receipts projection.
    let projected = d.to_final_execution_outcome_with_receipts();
    assert_eq!(projected.receipts.len(), 0);
    assert_eq!(projected.final_outcome.status, FinalExecutionStatus::SuccessValue(b"ok".to_vec()));
}

#[test]
fn chained_receipts_failure() {
    // T spawns R1, R1 spawns R2, R2 fails; receipts arrive over three
    // blocks and the cursor ends at 202.
    let t = h(11);
    let r1 = h(12);
    let r2 = h(13);
    let mut ix = fresh_indexer(10_000);
    let b200 = block(
        200,
        tx_shard(tx(t, "a", "b"), outcome(t, ExecutionStatusView::SuccessReceiptId(r1), vec![r1])),
    );
    let b201 = block(
        201,
        resolution_shard(
            ReceiptView { receipt_id: r1, priority: 0 },
            outcome(r1, ExecutionStatusView::SuccessReceiptId(r2), vec![r2]),
        ),
    );
    let b202 = block(
        202,
        resolution_shard(
            ReceiptView { receipt_id: r2, priority: 0 },
            outcome(r2, ExecutionStatusView::Failure(b"E".to_vec()), vec![]),
        ),
    );
    ix.handle_streamer_message(&b200).unwrap();
    ix.handle_streamer_message(&b201).unwrap();
    ix.handle_streamer_message(&b202).unwrap();

    let d = ix.db.get_transaction_by_hash(t).expect("persisted");
    assert_eq!(d.status, FinalExecutionStatus::Failure(b"E".to_vec()));
    let ids: Vec<CryptoHash> = d.receipts.iter().map(|r| r.receipt_id).collect();
    assert_eq!(ids, vec![r1, r2]);
    assert_eq!(ix.db.get_meta(&b"main-0".to_vec()), Some(202));
    // No local-receipt omission when signer != receiver.
    let projected = d.to_final_execution_outcome_with_receipts();
    assert_eq!(projected.receipts.len(), 2);
    // Both receipts are resolvable through the reverse index.
    assert_eq!(ix.db.get_receipt(r1), Some((t, 200, 0)));
    assert_eq!(ix.db.get_receipt(r2), Some((t, 201, 0)));
}

#[test]
fn not_started_is_not_persisted_then_abandoned() {
    // A transaction whose only outcome is Unknown never finalizes; within
    // retention nothing is written, and the sweep evicts it once too old.
    let t = h(21);
    let mut ix = fresh_indexer(10);
    let b300 = block(300, tx_shard(tx(t, "a", "b"), outcome(t, ExecutionStatusView::Unknown, vec![])));
    ix.handle_streamer_message(&b300).unwrap();
    assert!(ix.db.get_transaction_by_hash(t).is_err());
    assert_eq!(ix.abandoned_total, 0);
    assert_eq!(ix.state.transactions.len(), 1);

    // Height 400 puts the entry past the ceiling: evicted, not persisted.
    let b400 = block(400, IndexedShard { shard_id: 0, transactions: vec![], receipts: vec![], execution_outcomes: vec![] });
    ix.handle_streamer_message(&b400).unwrap();
    assert_eq!(ix.abandoned_total, 1);
    assert_eq!(ix.state.transactions.len(), 0);
    assert!(ix.db.get_transaction_by_hash(t).is_err());
}

#[test]
fn restart_resumes_from_cursor() {
    // Crash after block 500 commits but before 501 does: a restart resumes
    // at the cursor and re-processes 501; the outcome equals the
    // uninterrupted run.
    let t = h(31);
    let r1 = h(32);
    let b500 = block(
        500,
        tx_shard(tx(t, "a", "b"), outcome(t, ExecutionStatusView::SuccessReceiptId(r1), vec![r1])),
    );
    let b501 = block(
        501,
        resolution_shard(
            ReceiptView { receipt_id: r1, priority: 0 },
            outcome(r1, ExecutionStatusView::SuccessValue(b"v".to_vec()), vec![]),
        ),
    );

    // Uninterrupted run.
    let mut full = fresh_indexer(10_000);
    full.handle_streamer_message(&b500).unwrap();
    full.handle_streamer_message(&b501).unwrap();

    // Interrupted run: only block 500 committed, then a fresh instance
    // takes over the same durable state.
    let mut first = fresh_indexer(10_000);
    first.handle_streamer_message(&b500).unwrap();
    let durable = first.db.clone();
    assert_eq!(durable.get_meta(&b"main-0".to_vec()), Some(500));

    let mut second = TxIndexer::new(durable, b"main-0".to_vec(), 10_000);
    let cursor = second.db.get_meta(&b"main-0".to_vec());
    let resume = start_block_height(&StartOptions::FromInterruption, cursor, 999_999);
    assert_eq!(resume, 500);
    // The stream replays from the cursor: 500 again, then 501.
    second.handle_streamer_message(&b500).unwrap();
    second.handle_streamer_message(&b501).unwrap();

    let a = full.db.get_transaction_by_hash(t).unwrap();
    let b = second.db.get_transaction_by_hash(t).unwrap();
    assert_eq!(a, b);
    assert_eq!(full.db.get_meta(&b"main-0".to_vec()), second.db.get_meta(&b"main-0".to_vec()));
    assert_eq!(second.db.get_receipt(r1), Some((t, 500, 0)));
}

#[test]
fn hash_collision_across_blocks() {
    // Two distinct transactions share a hash at heights 700 and 800; both
    // are stored, and the read under the shared hash returns the row with
    // the greater height.
    let shared = h(41);
    let mut ix = fresh_indexer(10_000);
    let b700 = block(
        700,
        tx_shard(tx(shared, "a", "b"), outcome(shared, ExecutionStatusView::SuccessValue(b"one".to_vec()), vec![])),
    );
    let b800 = block(
        800,
        tx_shard(tx(shared, "c", "d"), outcome(shared, ExecutionStatusView::SuccessValue(b"two".to_vec()), vec![])),
    );
    ix.handle_streamer_message(&b700).unwrap();
    ix.handle_streamer_message(&b800).unwrap();

    let (_, height) = ix.db.get_transaction_bytes(shared).expect("stored");
    assert_eq!(height, 800);
    let d = ix.db.get_transaction_by_hash(shared).unwrap();
    assert_eq!(d.status, FinalExecutionStatus::SuccessValue(b"two".to_vec()));
    assert_eq!(d.transaction.signer_id.bytes, b"c".to_vec());
}

#[test]
fn same_block_routing_and_conflict_keeps_first_binding() {
    // An outcome arriving in the same block as the transaction is routed
    // because the transaction's initial receipt ids are already watched.
    let t = h(51);
    let r1 = h(52);
    let mut ix = fresh_indexer(10_000);
    let b = BlockMessage {
        block_height: 900,
        block_hash: h(9900),
        shards: vec![IndexedShard {
            shard_id: 3,
            transactions: vec![IndexerTransactionWithOutcome {
                transaction: tx(t, "a", "b"),
                outcome: outcome(t, ExecutionStatusView::SuccessReceiptId(r1), vec![r1]),
            }],
            receipts: vec![ReceiptView { receipt_id: r1, priority: 0 }],
            execution_outcomes: vec![outcome(r1, ExecutionStatusView::SuccessValue(vec![]), vec![])],
        }],
    };
    ix.handle_streamer_message(&b).unwrap();
    let d = ix.db.get_transaction_by_hash(t).unwrap();
    assert_eq!(d.status, FinalExecutionStatus::SuccessValue(vec![]));
    assert_eq!(ix.db.get_receipt(r1), Some((t, 900, 3)));
}

#[test]
fn orphan_receipts_are_dropped() {
    let mut ix = fresh_indexer(10_000);
    let b = block(
        950,
        resolution_shard(
            ReceiptView { receipt_id: h(61), priority: 0 },
            outcome(h(61), ExecutionStatusView::SuccessValue(vec![]), vec![]),
        ),
    );
    ix.handle_streamer_message(&b).unwrap();
    assert_eq!(ix.orphaned_total, 2);
    assert_eq!(ix.db.get_receipt(h(61)), None);
}

#[test]
fn malformed_block_is_skipped() {
    // The transaction's own outcome must resolve the transaction's hash.
    let mut ix = fresh_indexer(10_000);
    let b = block(
        42,
        tx_shard(tx(h(71), "a", "b"), outcome(h(72), ExecutionStatusView::Unknown, vec![])),
    );
    let r = ix.handle_streamer_message(&b);
    assert_eq!(r, Err(tx_indexer::indexer::IndexError::MalformedBlock));
    assert_eq!(ix.db.get_meta(&b"main-0".to_vec()), None);
}

#[test]
fn start_mode_decisions() {
    assert_eq!(start_block_height(&StartOptions::FromBlock { height: 7 }, Some(3), 9), 7);
    assert_eq!(start_block_height(&StartOptions::FromInterruption, Some(3), 9), 3);
    assert_eq!(start_block_height(&StartOptions::FromInterruption, None, 9), 9);
    assert_eq!(start_block_height(&StartOptions::FromLatest, Some(3), 9), 9);

    let opts = Opts {
        indexer_id: b"main-0".to_vec(),
        port: 8080,
        scylla_url: b"127.0.0.1:9042".to_vec(),
        scylla_keyspace: b"tx_indexer".to_vec(),
        scylla_user: None,
        scylla_password: None,
        chain_id: ChainId::Mainnet(StartOptions::FromLatest),
    };
    assert_eq!(opts.rpc_url(), "https://rpc.mainnet.near.org");
    assert!(matches!(opts.start_options(), StartOptions::FromLatest));
    let opts2 = Opts { chain_id: ChainId::Testnet(StartOptions::FromInterruption), ..opts };
    assert_eq!(opts2.rpc_url(), "https://rpc.testnet.near.org");
}

#[test]
fn state_change_snapshots() {
    let mut db = StateChangesDb::new();
    let alice = AccountId { bytes: b"alice".to_vec() };
    let row = |height: u64, data: Option<Vec<u8>>| StateChangeRow {
        kind: StateKind::Account,
        account_id: alice.clone(),
        key_hex: Vec::new(),
        block_height: height,
        block_hash: h(9000 + height),
        data,
    };
    db.put(row(10, Some(b"v10".to_vec())));
    db.put(row(20, Some(b"v20".to_vec())));
    db.put(row(30, None));

    // The latest change at or before the requested height wins.
    let q = db.get_account(&alice, 25).expect("snapshot at 25");
    assert_eq!(q.data, b"v20".to_vec());
    assert_eq!(q.block_height, 20);
    let q = db.get_account(&alice, 10).expect("snapshot at 10");
    assert_eq!(q.data, b"v10".to_vec());
    // Before the first change, and after a deletion, nothing is returned.
    assert_eq!(db.get_account(&alice, 5), Err(QueryError::NotFound));
    assert_eq!(db.get_account(&alice, 40), Err(QueryError::NotFound));
    // Another account sees nothing.
    assert_eq!(db.get_account(&AccountId { bytes: b"bob".to_vec() }, 25), Err(QueryError::NotFound));

    // Access keys are stored under the hex text of the public key.
    let mut db = StateChangesDb::new();
    let pk = vec![1u8, 2, 255];
    db.put(StateChangeRow {
        kind: StateKind::AccessKey,
        account_id: alice.clone(),
        key_hex: b"0102ff".to_vec(),
        block_height: 7,
        block_hash: h(9007),
        data: Some(b"full-access".to_vec()),
    });
    let q = db.get_access_key(&alice, 9, &pk).expect("access key snapshot");
    assert_eq!(q.data, b"full-access".to_vec());
    assert_eq!(db.get_contract_code(&alice, 9), Err(QueryError::NotFound));
}

#[test]
fn state_keys_by_prefix_round_trip_hex() {
    let mut db = StateChangesDb::new();
    let alice = AccountId { bytes: b"alice".to_vec() };
    let data_row = |key: &[u8], height: u64, value: &[u8]| StateChangeRow {
        kind: StateKind::Data,
        account_id: alice.clone(),
        key_hex: hex::encode(key).into_bytes(),
        block_height: height,
        block_hash: h(9100 + height),
        data: Some(value.to_vec()),
    };
    db.put(data_row(b"ab-one", 10, b"1"));
    db.put(data_row(b"ab-two", 11, b"2"));
    db.put(data_row(b"zz-other", 12, b"3"));

    let keys = db.get_state_keys_by_prefix(&alice, &b"ab-".to_vec());
    assert_eq!(keys, vec![b"ab-one".to_vec(), b"ab-two".to_vec()]);
    let all = db.get_state_keys_by_prefix(&alice, &Vec::new());
    assert_eq!(all.len(), 3);

    let v = db.get_state_key_value(&alice, 20, &b"ab-two".to_vec()).expect("stored value");
    assert_eq!(v, b"2".to_vec());
    assert!(db.get_state_key_value(&alice, 9, &b"ab-one".to_vec()).is_err());
    assert!(db.get_state_key_value(&alice, 20, &b"missing".to_vec()).is_err());
}

#[test]
fn block_and_chunk_point_lookups() {
    let mut db = BlockIndexDb::new();
    db.put_block(BlockRecord { height: 70, hash: h(9070) });
    db.put_block(BlockRecord { height: 71, hash: h(9071) });
    db.put_chunk(ChunkRow { chunk_hash: h(9170), block_height: 70, shard_id: 2 });

    assert_eq!(db.get_block_by_hash(h(9071)), Ok(71));
    assert_eq!(db.get_block_by_hash(h(9999)), Err(QueryError::NotFound));
    assert_eq!(db.get_block_by_chunk_hash(h(9170)), Ok(BlockHeightShardId(70, 2)));
    assert_eq!(db.get_block_by_chunk_hash(h(9171)), Err(QueryError::NotFound));
}
