//! Codec round trips, historical-variant decoding, the finality walk and
//! the hex text forms.

use tx_indexer::codec::DecodeError;
use tx_indexer::codec::{
    TransactionDetailsV0201, TransactionDetailsV0212, TransactionDetailsV0220,
    TransactionDetailsV0230,
};
use tx_indexer::database::RowError;
use tx_indexer::hexutil::hex_decode;
use tx_indexer::primitives::{BlockHeightShardId, BlockRecord, ReceiptRecord};
use tx_indexer::primitives::{
    AccountId, CollectingTransactionDetails, CryptoHash, ExecutionOutcomeView,
    ExecutionOutcomeWithIdView, ExecutionStatusView, FinalExecutionStatus,
    IndexerTransactionWithOutcome, ReceiptView, SignedTransactionView, TransactionDetails,
    TransactionKey,
};

fn h(n: u64) -> CryptoHash {
    CryptoHash { w0: n, w1: n + 1, w2: n + 2, w3: n + 3 }
}

fn account(name: &str) -> AccountId {
    AccountId { bytes: name.as_bytes().to_vec() }
}

fn sample_details() -> TransactionDetails {
    TransactionDetails {
        receipts: vec![
            ReceiptView { receipt_id: h(1), priority: 5 },
            ReceiptView { receipt_id: h(2), priority: 0 },
        ],
        receipts_outcome: vec![ExecutionOutcomeWithIdView {
            id: h(1),
            outcome: ExecutionOutcomeView {
                status: ExecutionStatusView::SuccessValue(b"done".to_vec()),
                receipt_ids: vec![],
                gas_burnt: 11,
                tokens_burnt: 12,
            },
        }],
        status: FinalExecutionStatus::SuccessValue(b"done".to_vec()),
        transaction: SignedTransactionView {
            hash: h(9),
            signer_id: account("alice.near"),
            receiver_id: account("bob.near"),
            priority_fee: 2,
            nonce: 77,
        },
        transaction_outcome: ExecutionOutcomeWithIdView {
            id: h(9),
            outcome: ExecutionOutcomeView {
                status: ExecutionStatusView::SuccessReceiptId(h(1)),
                receipt_ids: vec![h(1)],
                gas_burnt: 21,
                tokens_burnt: 22,
            },
        },
    }
}

#[test]
fn current_round_trip() {
    let d = sample_details();
    assert!(d.is_encodable());
    let bytes = d.borsh_serialize();
    let back = TransactionDetails::borsh_deserialize(&bytes).expect("round trip");
    assert_eq!(back, d);
}

#[test]
fn truncated_and_garbage_inputs_fail() {
    let d = sample_details();
    let mut bytes = d.borsh_serialize();
    bytes.pop();
    assert_eq!(TransactionDetails::borsh_deserialize(&bytes), Err(DecodeError::UnknownFormat));
    // Trailing bytes are refused too: the decoders consume the whole input.
    let mut extended = d.borsh_serialize();
    extended.push(0);
    assert_eq!(TransactionDetails::borsh_deserialize(&extended), Err(DecodeError::UnknownFormat));
    assert_eq!(
        TransactionDetails::borsh_deserialize(&b"not a record".to_vec()),
        Err(DecodeError::UnknownFormat)
    );
}

fn oldest_variant() -> TransactionDetailsV0201 {
    TransactionDetailsV0201 {
        receipts: vec![h(3), h(4)],
        receipts_outcome: vec![ExecutionOutcomeWithIdView {
            id: h(3),
            outcome: ExecutionOutcomeView {
                status: ExecutionStatusView::Failure(b"boom".to_vec()),
                receipt_ids: vec![],
                gas_burnt: 0,
                tokens_burnt: 0,
            },
        }],
        status: FinalExecutionStatus::Failure(b"boom".to_vec()),
        transaction: SignedTransactionView {
            hash: h(8),
            signer_id: account("carol"),
            receiver_id: account("dave"),
            priority_fee: 0,
            nonce: 0,
        },
        transaction_outcome: ExecutionOutcomeWithIdView {
            id: h(8),
            outcome: ExecutionOutcomeView {
                status: ExecutionStatusView::SuccessReceiptId(h(3)),
                receipt_ids: vec![h(3)],
                gas_burnt: 0,
                tokens_burnt: 0,
            },
        },
    }
}

#[test]
fn historical_oldest_variant_upgrades() {
    // A stored record in the oldest shape is read back through the
    // fallback chain; the shared fields survive, the added ones are zero.
    let v0 = oldest_variant();
    let payload = v0.borsh_serialize();
    let d = TransactionDetails::borsh_deserialize(&payload).expect("historical decode");
    assert_eq!(d.transaction.hash, h(8));
    assert_eq!(d.transaction.signer_id.bytes, b"carol".to_vec());
    assert_eq!(d.status, FinalExecutionStatus::Failure(b"boom".to_vec()));
    let ids: Vec<CryptoHash> = d.receipts.iter().map(|r| r.receipt_id).collect();
    assert_eq!(ids, vec![h(3), h(4)]);
    // The fields the old shape lacked read as zero.
    assert_eq!(d.transaction.priority_fee, 0);
    assert_eq!(d.transaction.nonce, 0);
    assert!(d.receipts.iter().all(|r| r.priority == 0));
}

#[test]
fn every_historical_variant_decodes() {
    let base = oldest_variant();
    let v0212 = TransactionDetailsV0212 {
        receipts: base.receipts.clone(),
        receipts_outcome: base.receipts_outcome.clone(),
        status: base.status.clone(),
        transaction: SignedTransactionView { priority_fee: 6, ..base.transaction.clone() },
        transaction_outcome: base.transaction_outcome.clone(),
    };
    let d = TransactionDetails::borsh_deserialize(&v0212.borsh_serialize()).unwrap();
    assert_eq!(d.transaction.priority_fee, 6);
    assert_eq!(d.transaction.nonce, 0);

    let with_counters = ExecutionOutcomeWithIdView {
        id: h(8),
        outcome: ExecutionOutcomeView {
            status: ExecutionStatusView::SuccessReceiptId(h(3)),
            receipt_ids: vec![h(3)],
            gas_burnt: 100,
            tokens_burnt: 200,
        },
    };
    let v0220 = TransactionDetailsV0220 {
        receipts: base.receipts.clone(),
        receipts_outcome: vec![with_counters.clone()],
        status: base.status.clone(),
        transaction: SignedTransactionView { priority_fee: 6, ..base.transaction.clone() },
        transaction_outcome: with_counters.clone(),
    };
    let d = TransactionDetails::borsh_deserialize(&v0220.borsh_serialize()).unwrap();
    assert_eq!(d.transaction_outcome.outcome.gas_burnt, 100);
    assert_eq!(d.transaction.nonce, 0);

    let v0230 = TransactionDetailsV0230 {
        receipts: base.receipts.clone(),
        receipts_outcome: vec![with_counters.clone()],
        status: base.status.clone(),
        transaction: SignedTransactionView { priority_fee: 6, nonce: 9, ..base.transaction.clone() },
        transaction_outcome: with_counters,
    };
    let d = TransactionDetails::borsh_deserialize(&v0230.borsh_serialize()).unwrap();
    assert_eq!(d.transaction.nonce, 9);
    assert!(d.receipts.iter().all(|r| r.priority == 0));
}

#[test]
fn finality_walk_cases() {
    let t = h(30);
    let tx = SignedTransactionView {
        hash: t,
        signer_id: account("a"),
        receiver_id: account("b"),
        priority_fee: 0,
        nonce: 0,
    };
    let own = |status: ExecutionStatusView, spawned: Vec<CryptoHash>| ExecutionOutcomeWithIdView {
        id: t,
        outcome: ExecutionOutcomeView { status, receipt_ids: spawned, gas_burnt: 0, tokens_burnt: 0 },
    };

    // A single Unknown outcome resolves to NotStarted.
    let c = CollectingTransactionDetails::from_indexer_tx(
        IndexerTransactionWithOutcome { transaction: tx.clone(), outcome: own(ExecutionStatusView::Unknown, vec![]) },
        5,
    );
    assert_eq!(c.final_status(), Some(FinalExecutionStatus::NotStarted));
    assert_eq!(c.transaction_key(), TransactionKey::new(t, 5));

    // Unknown with more outcomes resolves to Started.
    let mut c = CollectingTransactionDetails::from_indexer_tx(
        IndexerTransactionWithOutcome { transaction: tx.clone(), outcome: own(ExecutionStatusView::Unknown, vec![]) },
        5,
    );
    c.execution_outcomes.push(ExecutionOutcomeWithIdView {
        id: h(31),
        outcome: ExecutionOutcomeView {
            status: ExecutionStatusView::SuccessValue(vec![]),
            receipt_ids: vec![],
            gas_burnt: 0,
            tokens_burnt: 0,
        },
    });
    assert_eq!(c.final_status(), Some(FinalExecutionStatus::Started));

    // A pending chain has no final status yet, and freezing it fails.
    let c = CollectingTransactionDetails::from_indexer_tx(
        IndexerTransactionWithOutcome {
            transaction: tx.clone(),
            outcome: own(ExecutionStatusView::SuccessReceiptId(h(32)), vec![h(32)]),
        },
        5,
    );
    assert_eq!(c.final_status(), None);
    assert!(c.to_final_transaction_result().is_err());

    // Outcomes listed out of chain order still resolve.
    let mut c = CollectingTransactionDetails::from_indexer_tx(
        IndexerTransactionWithOutcome {
            transaction: tx,
            outcome: own(ExecutionStatusView::SuccessReceiptId(h(32)), vec![h(32)]),
        },
        5,
    );
    // Insert the leaf for a *different* id first, then the link target.
    c.execution_outcomes.push(ExecutionOutcomeWithIdView {
        id: h(33),
        outcome: ExecutionOutcomeView {
            status: ExecutionStatusView::SuccessValue(b"leaf".to_vec()),
            receipt_ids: vec![],
            gas_burnt: 0,
            tokens_burnt: 0,
        },
    });
    c.execution_outcomes.push(ExecutionOutcomeWithIdView {
        id: h(32),
        outcome: ExecutionOutcomeView {
            status: ExecutionStatusView::SuccessReceiptId(h(33)),
            receipt_ids: vec![h(33)],
            gas_burnt: 0,
            tokens_burnt: 0,
        },
    });
    assert_eq!(c.final_status(), Some(FinalExecutionStatus::SuccessValue(b"leaf".to_vec())));
}

#[test]
fn hash_text_round_trip_matches_hex_crate() {
    let hash = h(99);
    let text = hash.to_text();
    // The canonical form is exactly the hex crate's lowercase encoding of
    // the 32 raw bytes.
    assert_eq!(text, hex::encode(hash.to_bytes()).into_bytes());
    assert_eq!(text.len(), 64);
    assert_eq!(CryptoHash::try_from_text(&text), Some(hash));
    // Uppercase digits decode to the same hash.
    let upper: Vec<u8> = text.iter().map(|b| b.to_ascii_uppercase()).collect();
    assert_eq!(CryptoHash::try_from_text(&upper), Some(hash));
    // Odd length, bad digits and wrong sizes are rejected.
    assert_eq!(CryptoHash::try_from_text(&b"abc".to_vec()), None);
    assert_eq!(CryptoHash::try_from_text(&b"zz".to_vec()), None);
    assert_eq!(CryptoHash::try_from_text(&b"aabb".to_vec()), None);
    assert_eq!(hex_decode(&b"0f10".to_vec()), Some(vec![15, 16]));
    assert_eq!(hex_decode(&b"0f1".to_vec()), None);
}

#[test]
fn reader_row_conversions() {
    let rid = h(70);
    let parent = h(71);
    let bh = h(72);
    let rec = ReceiptRecord::try_from_row(
        &rid.to_text(),
        &parent.to_text(),
        account("eve"),
        Some(1234),
        &bh.to_text(),
        Some(2),
    )
    .expect("valid row converts");
    assert_eq!(rec.receipt_id, rid);
    assert_eq!(rec.parent_transaction_hash, parent);
    assert_eq!(rec.block_height, 1234);
    assert_eq!(rec.block_hash, bh);
    assert_eq!(rec.shard_id, 2);

    assert!(ReceiptRecord::try_from_row(
        &b"zz".to_vec(),
        &parent.to_text(),
        account("eve"),
        Some(1),
        &bh.to_text(),
        Some(2),
    )
    .is_err());

    assert_eq!(
        BlockHeightShardId::try_from_parts(Some(10), Some(3)).unwrap(),
        BlockHeightShardId(10, 3)
    );
    assert_eq!(BlockHeightShardId::try_from_parts(None, Some(3)), Err(RowError::BadBlockHeight));

    let br = BlockRecord::try_from_row(&bh.to_text(), Some(55)).unwrap();
    assert_eq!(br.height, 55);
    assert_eq!(br.hash, bh);
    assert_eq!(BlockRecord::try_from_row(&bh.to_text(), None), Err(RowError::BadBlockHeight));
}

#[test]
fn row_errors_name_the_first_failing_field() {
    let good = h(80).to_text();
    let bad = b"zz".to_vec();

    // Fields are checked in order: a bad receipt id masks everything after.
    assert_eq!(
        ReceiptRecord::try_from_row(&bad, &bad, account("x"), None, &bad, None),
        Err(RowError::BadReceiptId)
    );
    assert_eq!(
        ReceiptRecord::try_from_row(&good, &bad, account("x"), None, &bad, None),
        Err(RowError::BadParentTransactionHash)
    );
    assert_eq!(
        ReceiptRecord::try_from_row(&good, &good, account("x"), None, &bad, None),
        Err(RowError::BadBlockHeight)
    );
    assert_eq!(
        ReceiptRecord::try_from_row(&good, &good, account("x"), Some(1), &bad, None),
        Err(RowError::BadBlockHash)
    );
    assert_eq!(
        ReceiptRecord::try_from_row(&good, &good, account("x"), Some(1), &good, None),
        Err(RowError::BadShardId)
    );
    // A missing height masks a bad block hash.
    assert_eq!(BlockRecord::try_from_row(&bad, None), Err(RowError::BadBlockHeight));
    assert_eq!(BlockRecord::try_from_row(&bad, Some(1)), Err(RowError::BadBlockHash));
}
