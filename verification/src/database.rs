//! The storage adapter, modelled exactly: three tables as rows in memory,
//! keyed puts that replace, and the point lookups the core and the sibling
//! reader service use. The transactions table clusters by descending block
//! height under a shared hash: the read picks the row with the greatest
//! height. A second, durable backend implements the same operations
//! outside the library.

use vstd::prelude::*;
use crate::primitives::{
    CryptoHash,
    AccountId,
    TransactionDetails,
    clone_bytes,
    clone_account,
    BlockHeightShardId,
    BlockRecord,
    QueryData,
    ReceiptRecord,
};
use crate::codec::DecodeError;
use crate::hexutil::{hex_valid, unhex, hash_bytes, hash_text_ok};

verus! {

/// One stored transaction row: key (hash, height), the signer for the
/// account index, and the encoded record.
#[derive(Clone, PartialEq, Debug)]
pub struct TxRow {
    pub transaction_hash: CryptoHash,
    pub block_height: u64,
    pub account_id: AccountId,
    pub data: Vec<u8>,
}

#[verifier::ext_equal]
pub ghost struct SpecTxRow {
    pub transaction_hash: CryptoHash,
    pub block_height: u64,
    pub account_id: Seq<u8>,
    pub data: Seq<u8>,
}

impl View for TxRow {
    type V = SpecTxRow;

    open spec fn view(&self) -> SpecTxRow {
        SpecTxRow {
            transaction_hash: self.transaction_hash,
            block_height: self.block_height,
            account_id: self.account_id@,
            data: self.data@,
        }
    }
}

/// One reverse-index row.
#[derive(Clone, Copy, PartialEq, Eq, Structural, Debug)]
pub struct ReceiptRow {
    pub receipt_id: CryptoHash,
    pub block_height: u64,
    pub parent_transaction_hash: CryptoHash,
    pub shard_id: u64,
}

/// One progress-cursor row.
#[derive(Clone, PartialEq, Debug)]
pub struct MetaRow {
    pub indexer_id: Vec<u8>,
    pub last_processed_block_height: u64,
}

#[verifier::ext_equal]
pub ghost struct SpecDb {
    pub transactions: Seq<SpecTxRow>,
    pub receipts: Seq<ReceiptRow>,
    pub meta: Seq<(Seq<u8>, u64)>,
}

/// The in-memory reference backend of the storage contract.
#[derive(Clone, PartialEq, Debug)]
pub struct InMemoryDb {
    pub transactions: Vec<TxRow>,
    pub receipts: Vec<ReceiptRow>,
    pub meta: Vec<MetaRow>,
}

impl View for InMemoryDb {
    type V = SpecDb;

    open spec fn view(&self) -> SpecDb {
        SpecDb {
            transactions: self.transactions@.map_values(|r: TxRow| r@),
            receipts: self.receipts@,
            meta: self.meta@.map_values(|r: MetaRow| (r.indexer_id@, r.last_processed_block_height)),
        }
    }
}

// ---------------------------------------------------------------------------
// Keyed puts, as remove-then-append.
// ---------------------------------------------------------------------------

pub open spec fn txrow_remove(rows: Seq<SpecTxRow>, hash: CryptoHash, height: u64) -> Seq<SpecTxRow>
    decreases rows.len(),
{
    if rows.len() == 0 {
        rows
    } else if rows[0].transaction_hash == hash && rows[0].block_height == height {
        txrow_remove(rows.skip(1), hash, height)
    } else {
        seq![rows[0]] + txrow_remove(rows.skip(1), hash, height)
    }
}

pub open spec fn txrow_put(rows: Seq<SpecTxRow>, row: SpecTxRow) -> Seq<SpecTxRow> {
    txrow_remove(rows, row.transaction_hash, row.block_height).push(row)
}

pub open spec fn receipt_remove(rows: Seq<ReceiptRow>, id: CryptoHash) -> Seq<ReceiptRow>
    decreases rows.len(),
{
    if rows.len() == 0 {
        rows
    } else if rows[0].receipt_id == id {
        receipt_remove(rows.skip(1), id)
    } else {
        seq![rows[0]] + receipt_remove(rows.skip(1), id)
    }
}

pub open spec fn receipt_put(rows: Seq<ReceiptRow>, row: ReceiptRow) -> Seq<ReceiptRow> {
    receipt_remove(rows, row.receipt_id).push(row)
}

/// First reverse-index row for a receipt id, if any.
pub open spec fn receipt_find(rows: Seq<ReceiptRow>, id: CryptoHash) -> Option<ReceiptRow>
    decreases rows.len(),
{
    if rows.len() == 0 {
        None
    } else if rows[0].receipt_id == id {
        Some(rows[0])
    } else {
        receipt_find(rows.skip(1), id)
    }
}

pub open spec fn meta_remove(rows: Seq<(Seq<u8>, u64)>, id: Seq<u8>) -> Seq<(Seq<u8>, u64)>
    decreases rows.len(),
{
    if rows.len() == 0 {
        rows
    } else if rows[0].0 == id {
        meta_remove(rows.skip(1), id)
    } else {
        seq![rows[0]] + meta_remove(rows.skip(1), id)
    }
}

pub open spec fn meta_put(rows: Seq<(Seq<u8>, u64)>, id: Seq<u8>, h: u64) -> Seq<(Seq<u8>, u64)> {
    meta_remove(rows, id).push((id, h))
}

/// The stored cursor of an indexer instance, if any.
pub open spec fn meta_find(rows: Seq<(Seq<u8>, u64)>, id: Seq<u8>) -> Option<u64>
    decreases rows.len(),
{
    if rows.len() == 0 {
        None
    } else if rows[0].0 == id {
        Some(rows[0].1)
    } else {
        meta_find(rows.skip(1), id)
    }
}

/// What the cursor reads after a cursor write: the written height for this
/// indexer, the untouched binding for every other.
pub proof fn lemma_meta_put_find(rows: Seq<(Seq<u8>, u64)>, id: Seq<u8>, h: u64, id2: Seq<u8>)
    ensures
        meta_find(meta_put(rows, id, h), id2) == (if id2 == id {
            Some(h)
        } else {
            meta_find(rows, id2)
        }),
    decreases rows.len(),
{
    reveal_with_fuel(meta_find, 3);
    reveal_with_fuel(meta_remove, 3);
    if rows.len() == 0 {
        assert(meta_remove(rows, id) =~= rows);
        assert(meta_put(rows, id, h)[0] == (id, h));
        assert(meta_put(rows, id, h).skip(1) =~= Seq::<(Seq<u8>, u64)>::empty());
    } else {
        lemma_meta_put_find(rows.skip(1), id, h, id2);
        if rows[0].0 == id {
        } else {
            assert(meta_put(rows, id, h) =~= seq![rows[0]] + meta_put(rows.skip(1), id, h));
            assert((seq![rows[0]] + meta_put(rows.skip(1), id, h)).skip(1) =~= meta_put(
                rows.skip(1),
                id,
                h,
            ));
        }
    }
}

pub proof fn lemma_receipt_put_find(rows: Seq<ReceiptRow>, row: ReceiptRow, id2: CryptoHash)
    ensures
        receipt_find(receipt_put(rows, row), id2) == (if id2 == row.receipt_id {
            Some(row)
        } else {
            receipt_find(rows, id2)
        }),
    decreases rows.len(),
{
    reveal_with_fuel(receipt_find, 3);
    reveal_with_fuel(receipt_remove, 3);
    if rows.len() == 0 {
        assert(receipt_remove(rows, row.receipt_id) =~= rows);
        assert(receipt_put(rows, row)[0] == row);
        assert(receipt_put(rows, row).skip(1) =~= Seq::<ReceiptRow>::empty());
    } else {
        lemma_receipt_put_find(rows.skip(1), row, id2);
        if rows[0].receipt_id == row.receipt_id {
        } else {
            assert(receipt_put(rows, row) =~= seq![rows[0]] + receipt_put(rows.skip(1), row));
            assert((seq![rows[0]] + receipt_put(rows.skip(1), row)).skip(1) =~= receipt_put(
                rows.skip(1),
                row,
            ));
        }
    }
}

// Fold lemmas for the forward filter loops.

proof fn lemma_txrow_remove_push(rows: Seq<SpecTxRow>, x: SpecTxRow, hash: CryptoHash, height: u64)
    ensures
        txrow_remove(rows.push(x), hash, height) == (if x.transaction_hash == hash
            && x.block_height == height {
            txrow_remove(rows, hash, height)
        } else {
            txrow_remove(rows, hash, height).push(x)
        }),
    decreases rows.len(),
{
    reveal_with_fuel(txrow_remove, 3);
    if rows.len() == 0 {
        assert(rows.push(x)[0] == x);
        assert(rows.push(x).skip(1) =~= Seq::<SpecTxRow>::empty());
        if !(x.transaction_hash == hash && x.block_height == height) {
            assert(txrow_remove(rows.push(x), hash, height) =~= txrow_remove(
                rows,
                hash,
                height,
            ).push(x));
        }
    } else {
        assert(rows.push(x)[0] == rows[0]);
        assert(rows.push(x).skip(1) =~= rows.skip(1).push(x));
        lemma_txrow_remove_push(rows.skip(1), x, hash, height);
        if x.transaction_hash == hash && x.block_height == height {
            if !(rows[0].transaction_hash == hash && rows[0].block_height == height) {
                assert(txrow_remove(rows.push(x), hash, height) =~= txrow_remove(
                    rows,
                    hash,
                    height,
                ));
            }
        } else {
            assert(txrow_remove(rows.push(x), hash, height) =~= txrow_remove(
                rows,
                hash,
                height,
            ).push(x));
        }
    }
}

proof fn lemma_receipt_remove_push(rows: Seq<ReceiptRow>, x: ReceiptRow, id: CryptoHash)
    ensures
        receipt_remove(rows.push(x), id) == (if x.receipt_id == id {
            receipt_remove(rows, id)
        } else {
            receipt_remove(rows, id).push(x)
        }),
    decreases rows.len(),
{
    reveal_with_fuel(receipt_remove, 3);
    if rows.len() == 0 {
        assert(rows.push(x)[0] == x);
        assert(rows.push(x).skip(1) =~= Seq::<ReceiptRow>::empty());
        if x.receipt_id != id {
            assert(receipt_remove(rows.push(x), id) =~= receipt_remove(rows, id).push(x));
        }
    } else {
        assert(rows.push(x)[0] == rows[0]);
        assert(rows.push(x).skip(1) =~= rows.skip(1).push(x));
        lemma_receipt_remove_push(rows.skip(1), x, id);
        if x.receipt_id == id {
            if rows[0].receipt_id != id {
                assert(receipt_remove(rows.push(x), id) =~= receipt_remove(rows, id));
            }
        } else {
            assert(receipt_remove(rows.push(x), id) =~= receipt_remove(rows, id).push(x));
        }
    }
}

proof fn lemma_meta_remove_push(rows: Seq<(Seq<u8>, u64)>, x: (Seq<u8>, u64), id: Seq<u8>)
    ensures
        meta_remove(rows.push(x), id) == (if x.0 == id {
            meta_remove(rows, id)
        } else {
            meta_remove(rows, id).push(x)
        }),
    decreases rows.len(),
{
    reveal_with_fuel(meta_remove, 3);
    if rows.len() == 0 {
        assert(rows.push(x)[0] == x);
        assert(rows.push(x).skip(1) =~= Seq::<(Seq<u8>, u64)>::empty());
        if x.0 != id {
            assert(meta_remove(rows.push(x), id) =~= meta_remove(rows, id).push(x));
        }
    } else {
        assert(rows.push(x)[0] == rows[0]);
        assert(rows.push(x).skip(1) =~= rows.skip(1).push(x));
        lemma_meta_remove_push(rows.skip(1), x, id);
        if x.0 == id {
            if rows[0].0 != id {
                assert(meta_remove(rows.push(x), id) =~= meta_remove(rows, id));
            }
        } else {
            assert(meta_remove(rows.push(x), id) =~= meta_remove(rows, id).push(x));
        }
    }
}

impl InMemoryDb {
    pub fn new() -> (r: InMemoryDb)
        ensures
            r@.transactions == Seq::<SpecTxRow>::empty(),
            r@.receipts == Seq::<ReceiptRow>::empty(),
            r@.meta == Seq::<(Seq<u8>, u64)>::empty(),
    {
        let r = InMemoryDb { transactions: Vec::new(), receipts: Vec::new(), meta: Vec::new() };
        proof {
            assert(r@.transactions =~= Seq::<SpecTxRow>::empty());
            assert(r@.meta =~= Seq::<(Seq<u8>, u64)>::empty());
        }
        r
    }

    /// Durable write of a finalized record, keyed on (hash, height): the
    /// record is serialized with the current codec and replaces any row
    /// under the same key.
    pub fn add_transaction(&mut self, transaction: &TransactionDetails, block_height: u64)
        requires
            crate::codec::td_encodable(transaction@),
        ensures
            final(self)@.transactions == txrow_put(
                old(self)@.transactions,
                SpecTxRow {
                    transaction_hash: transaction@.transaction.hash,
                    block_height,
                    account_id: transaction@.transaction.signer_id,
                    data: crate::codec::enc_td(transaction@),
                },
            ),
            final(self)@.receipts == old(self)@.receipts,
            final(self)@.meta == old(self)@.meta,
    {
        let data = transaction.borsh_serialize();
        let row = TxRow {
            transaction_hash: transaction.transaction.hash,
            block_height,
            account_id: clone_account(&transaction.transaction.signer_id),
            data,
        };
        let ghost rows0 = self@.transactions;
        let ghost target = row@;
        let mut kept: Vec<TxRow> = Vec::new();
        proof {
            assert(rows0.take(0) =~= Seq::<SpecTxRow>::empty());
            assert(kept@.map_values(|r: TxRow| r@) =~= txrow_remove(
                rows0.take(0),
                target.transaction_hash,
                target.block_height,
            ));
            assert(rows0.skip(0) =~= rows0);
        }
        let ghost mut j: int = 0;
        while self.transactions.len() > 0
            invariant
                0 <= j <= rows0.len(),
                target == row@,
                self.transactions@.map_values(|r: TxRow| r@) == rows0.skip(j),
                kept@.map_values(|r: TxRow| r@) == txrow_remove(
                    rows0.take(j),
                    target.transaction_hash,
                    target.block_height,
                ),
                self@.receipts == old(self)@.receipts,
                self@.meta == old(self)@.meta,
            decreases self.transactions@.len(),
        {
            proof {
                assert(rows0.skip(j).len() == rows0.len() - j);
                assert(j < rows0.len());
                lemma_txrow_remove_push(
                    rows0.take(j),
                    rows0[j],
                    target.transaction_hash,
                    target.block_height,
                );
                assert(rows0.take(j + 1) =~= rows0.take(j).push(rows0[j]));
                assert(rows0.skip(j)[0] == rows0[j]);
            }
            let ghost before = kept@;
            let ghost remaining = self.transactions@;
            let entry = self.transactions.remove(0);
            proof {
                assert(self.transactions@.map_values(|r: TxRow| r@) =~= rows0.skip(j + 1)) by {
                    assert(self.transactions@ =~= remaining.skip(1));
                    assert(remaining.skip(1).map_values(|r: TxRow| r@) =~= remaining.map_values(
                        |r: TxRow| r@,
                    ).skip(1));
                    assert(rows0.skip(j).skip(1) =~= rows0.skip(j + 1));
                }
                assert(entry@ == rows0[j]);
            }
            if !(entry.transaction_hash == row.transaction_hash && entry.block_height
                == row.block_height) {
                kept.push(entry);
                proof {
                    assert(rows0[j].transaction_hash != target.transaction_hash || rows0[
                        j
                    ].block_height != target.block_height);
                    assert(kept@.map_values(|r: TxRow| r@) =~= before.map_values(|r: TxRow| r@).push(
                        rows0[j],
                    ));
                    assert(txrow_remove(
                        rows0.take(j + 1),
                        target.transaction_hash,
                        target.block_height,
                    ) == txrow_remove(
                        rows0.take(j),
                        target.transaction_hash,
                        target.block_height,
                    ).push(rows0[j]));
                }
            } else {
                proof {
                    assert(rows0[j].transaction_hash == target.transaction_hash && rows0[
                        j
                    ].block_height == target.block_height);
                    assert(txrow_remove(
                        rows0.take(j + 1),
                        target.transaction_hash,
                        target.block_height,
                    ) == txrow_remove(rows0.take(j), target.transaction_hash, target.block_height));
                }
            }
            proof {
                j = j + 1;
            }
        }
        proof {
            assert(rows0.skip(j).len() == 0);
            assert(j == rows0.len());
            assert(rows0.take(rows0.len() as int) =~= rows0);
        }
        kept.push(row);
        self.transactions = kept;
        proof {
            assert(self@.transactions =~= txrow_put(rows0, target));
        }
    }

    /// Durable write of one reverse-index row, keyed on the receipt id.
    pub fn add_receipt(
        &mut self,
        receipt_id: CryptoHash,
        parent_tx_hash: CryptoHash,
        block_height: u64,
        shard_id: u64,
    )
        ensures
            final(self)@.receipts == receipt_put(
                old(self)@.receipts,
                ReceiptRow {
                    receipt_id,
                    block_height,
                    parent_transaction_hash: parent_tx_hash,
                    shard_id,
                },
            ),
            final(self)@.transactions == old(self)@.transactions,
            final(self)@.meta == old(self)@.meta,
    {
        let row = ReceiptRow {
            receipt_id,
            block_height,
            parent_transaction_hash: parent_tx_hash,
            shard_id,
        };
        let ghost rows0 = self@.receipts;
        let mut kept: Vec<ReceiptRow> = Vec::new();
        proof {
            assert(rows0.take(0) =~= Seq::<ReceiptRow>::empty());
            assert(rows0.skip(0) =~= rows0);
        }
        let ghost mut j: int = 0;
        while self.receipts.len() > 0
            invariant
                0 <= j <= rows0.len(),
                self.receipts@ == rows0.skip(j),
                kept@ == receipt_remove(rows0.take(j), row.receipt_id),
                row == (ReceiptRow {
                    receipt_id,
                    block_height,
                    parent_transaction_hash: parent_tx_hash,
                    shard_id,
                }),
                self@.transactions == old(self)@.transactions,
                self@.meta == old(self)@.meta,
            decreases self.receipts@.len(),
        {
            proof {
                assert(j < rows0.len());
                lemma_receipt_remove_push(rows0.take(j), rows0[j], row.receipt_id);
                assert(rows0.take(j + 1) =~= rows0.take(j).push(rows0[j]));
                assert(rows0.skip(j)[0] == rows0[j]);
            }
            let ghost remaining = self.receipts@;
            let entry = self.receipts.remove(0);
            proof {
                assert(self.receipts@ =~= rows0.skip(j + 1)) by {
                    assert(self.receipts@ =~= remaining.skip(1));
                    assert(rows0.skip(j).skip(1) =~= rows0.skip(j + 1));
                }
                assert(entry == rows0[j]);
            }
            if !(entry.receipt_id == row.receipt_id) {
                kept.push(entry);
            }
            proof {
                j = j + 1;
            }
        }
        proof {
            assert(rows0.skip(j).len() == 0);
            assert(rows0.take(rows0.len() as int) =~= rows0);
        }
        kept.push(row);
        self.receipts = kept;
    }

    /// Durable write of the progress cursor, keyed on the indexer id; the
    /// single commit marker of the pipeline.
    pub fn update_meta(&mut self, indexer_id: &Vec<u8>, block_height: u64)
        ensures
            final(self)@.meta == meta_put(old(self)@.meta, indexer_id@, block_height),
            final(self)@.transactions == old(self)@.transactions,
            final(self)@.receipts == old(self)@.receipts,
    {
        let row = MetaRow {
            indexer_id: clone_bytes(indexer_id),
            last_processed_block_height: block_height,
        };
        let ghost rows0 = self@.meta;
        let mut kept: Vec<MetaRow> = Vec::new();
        proof {
            assert(rows0.take(0) =~= Seq::<(Seq<u8>, u64)>::empty());
            assert(kept@.map_values(|r: MetaRow| (r.indexer_id@, r.last_processed_block_height))
                =~= meta_remove(rows0.take(0), indexer_id@));
            assert(rows0.skip(0) =~= rows0);
        }
        let ghost mut j: int = 0;
        while self.meta.len() > 0
            invariant
                0 <= j <= rows0.len(),
                self.meta@.map_values(|r: MetaRow| (r.indexer_id@, r.last_processed_block_height))
                    == rows0.skip(j),
                kept@.map_values(|r: MetaRow| (r.indexer_id@, r.last_processed_block_height))
                    == meta_remove(rows0.take(j), indexer_id@),
                self@.transactions == old(self)@.transactions,
                self@.receipts == old(self)@.receipts,
            decreases self.meta@.len(),
        {
            proof {
                assert(self.meta@.map_values(
                    |r: MetaRow| (r.indexer_id@, r.last_processed_block_height),
                ).len() == self.meta@.len());
                assert(j < rows0.len());
                lemma_meta_remove_push(rows0.take(j), rows0[j], indexer_id@);
                assert(rows0.take(j + 1) =~= rows0.take(j).push(rows0[j]));
                assert(rows0.skip(j)[0] == rows0[j]);
            }
            let ghost before = kept@;
            let ghost remaining = self.meta@;
            let entry = self.meta.remove(0);
            proof {
                assert(self.meta@.map_values(
                    |r: MetaRow| (r.indexer_id@, r.last_processed_block_height),
                ) =~= rows0.skip(j + 1)) by {
                    assert(self.meta@ =~= remaining.skip(1));
                    assert(remaining.skip(1).map_values(
                        |r: MetaRow| (r.indexer_id@, r.last_processed_block_height),
                    ) =~= remaining.map_values(
                        |r: MetaRow| (r.indexer_id@, r.last_processed_block_height),
                    ).skip(1));
                    assert(rows0.skip(j).skip(1) =~= rows0.skip(j + 1));
                }
                assert((entry.indexer_id@, entry.last_processed_block_height) == rows0[j]);
            }
            if !crate::primitives::bytes_eq(&entry.indexer_id, indexer_id) {
                kept.push(entry);
                proof {
                    assert(kept@.map_values(
                        |r: MetaRow| (r.indexer_id@, r.last_processed_block_height),
                    ) =~= before.map_values(
                        |r: MetaRow| (r.indexer_id@, r.last_processed_block_height),
                    ).push(rows0[j]));
                }
            }
            proof {
                j = j + 1;
            }
        }
        proof {
            assert(rows0.skip(j).len() == 0);
            assert(rows0.take(rows0.len() as int) =~= rows0);
        }
        kept.push(row);
        self.meta = kept;
        proof {
            assert(self@.meta =~= meta_put(rows0, indexer_id@, block_height));
        }
    }

    /// The stored cursor of an indexer instance; read at startup to resume.
    pub fn get_meta(&self, indexer_id: &Vec<u8>) -> (r: Option<u64>)
        ensures
            r == meta_find(self@.meta, indexer_id@),
    {
        let mut i: usize = 0;
        while i < self.meta.len()
            invariant
                i <= self.meta@.len(),
                forall|a: int| 0 <= a < i ==> self@.meta[a].0 != indexer_id@,
            decreases self.meta@.len() - i,
        {
            if crate::primitives::bytes_eq(&self.meta[i].indexer_id, indexer_id) {
                proof {
                    lemma_meta_find_skip(self@.meta, indexer_id@, i as int);
                    assert(self@.meta.skip(i as int)[0] == self@.meta[i as int]);
                }
                return Some(self.meta[i].last_processed_block_height);
            }
            i = i + 1;
        }
        proof {
            lemma_meta_find_skip(self@.meta, indexer_id@, self@.meta.len() as int);
            assert(self@.meta.skip(self@.meta.len() as int).len() == 0);
        }
        None
    }

}

/// The row the descending-height read returns for a hash: among the rows
/// under the hash, the one with the greatest height (the earliest such row
/// on a tie).
pub open spec fn best_tx_row(rows: Seq<SpecTxRow>, hash: CryptoHash) -> Option<SpecTxRow>
    decreases rows.len(),
{
    if rows.len() == 0 {
        None
    } else {
        let rest = best_tx_row(rows.skip(1), hash);
        if rows[0].transaction_hash == hash {
            match rest {
                None => Some(rows[0]),
                Some(b) => if b.block_height > rows[0].block_height {
                    Some(b)
                } else {
                    Some(rows[0])
                },
            }
        } else {
            rest
        }
    }
}

proof fn lemma_best_tx_row_push(rows: Seq<SpecTxRow>, x: SpecTxRow, hash: CryptoHash)
    ensures
        best_tx_row(rows.push(x), hash) == (match best_tx_row(rows, hash) {
            None => if x.transaction_hash == hash {
                Some(x)
            } else {
                None
            },
            Some(b) => if x.transaction_hash == hash && x.block_height > b.block_height {
                Some(x)
            } else {
                Some(b)
            },
        }),
    decreases rows.len(),
{
    reveal_with_fuel(best_tx_row, 3);
    if rows.len() == 0 {
        assert(rows.push(x)[0] == x);
        assert(rows.push(x).skip(1) =~= Seq::<SpecTxRow>::empty());
    } else {
        assert(rows.push(x)[0] == rows[0]);
        assert(rows.push(x).skip(1) =~= rows.skip(1).push(x));
        lemma_best_tx_row_push(rows.skip(1), x, hash);
    }
}

impl InMemoryDb {
    /// The stored record bytes under the greatest block height for a hash:
    /// what the descending clustering makes the first row.
    pub fn get_transaction_bytes(&self, hash: CryptoHash) -> (r: Option<(Vec<u8>, u64)>)
        ensures
            match r {
                Some((data, height)) => {
                    &&& best_tx_row(self@.transactions, hash) matches Some(row) && row.data
                        == data@ && row.block_height == height
                    &&& forall|a: int|
                        0 <= a < self@.transactions.len() && (#[trigger] self@.transactions[
                        a
                    ]).transaction_hash == hash ==> self@.transactions[a].block_height <= height
                },
                None => {
                    &&& best_tx_row(self@.transactions, hash) is None
                    &&& forall|a: int|
                        0 <= a < self@.transactions.len() ==> (#[trigger] self@.transactions[
                        a
                    ]).transaction_hash != hash
                },
            },
    {
        let mut best: Option<usize> = None;
        let mut i: usize = 0;
        proof {
            assert(self@.transactions.take(0) =~= Seq::<SpecTxRow>::empty());
        }
        while i < self.transactions.len()
            invariant
                i <= self.transactions@.len(),
                match best {
                    Some(b) => {
                        &&& b < i
                        &&& self@.transactions[b as int].transaction_hash == hash
                        &&& best_tx_row(self@.transactions.take(i as int), hash) == Some(
                            self@.transactions[b as int],
                        )
                        &&& forall|a: int|
                            0 <= a < i && (#[trigger] self@.transactions[a]).transaction_hash
                                == hash ==> self@.transactions[a].block_height
                                <= self@.transactions[b as int].block_height
                    },
                    None => {
                        &&& best_tx_row(self@.transactions.take(i as int), hash) is None
                        &&& forall|a: int|
                            0 <= a < i ==> (#[trigger] self@.transactions[a]).transaction_hash
                                != hash
                    },
                },
            decreases self.transactions@.len() - i,
        {
            proof {
                lemma_best_tx_row_push(
                    self@.transactions.take(i as int),
                    self@.transactions[i as int],
                    hash,
                );
                assert(self@.transactions.take(i + 1) =~= self@.transactions.take(i as int).push(
                    self@.transactions[i as int],
                ));
            }
            if self.transactions[i].transaction_hash == hash {
                match best {
                    None => {
                        best = Some(i);
                    },
                    Some(b) => {
                        if self.transactions[i].block_height > self.transactions[b].block_height {
                            best = Some(i);
                        }
                    },
                }
            }
            i = i + 1;
        }
        proof {
            assert(self@.transactions.take(self@.transactions.len() as int)
                =~= self@.transactions);
        }
        match best {
            None => None,
            Some(b) => Some(
                (clone_bytes(&self.transactions[b].data), self.transactions[b].block_height),
            ),
        }
    }

    /// The stored record for a hash, decoded: the row under the greatest
    /// block height wins, and its bytes go through the versioned codec, so
    /// a stored encoding in any known shape is owed back as that record.
    /// Fails exactly when no row exists or no codec shape matches the
    /// winning row's bytes.
    pub fn get_transaction_by_hash(&self, hash: CryptoHash) -> (r: Result<
        TransactionDetails,
        DecodeError,
    >)
        ensures
            match best_tx_row(self@.transactions, hash) {
                None => r == Err::<TransactionDetails, DecodeError>(DecodeError::UnknownFormat),
                Some(row) => crate::codec::spec_decode_post(row.data, r),
            },
    {
        match self.get_transaction_bytes(hash) {
            None => Err(DecodeError::UnknownFormat),
            Some((data, _height)) => TransactionDetails::borsh_deserialize(&data),
        }
    }

    /// The reverse-index row of a receipt id: its parent transaction hash,
    /// block height and shard.
    pub fn get_receipt(&self, receipt_id: CryptoHash) -> (r: Option<(CryptoHash, u64, u64)>)
        ensures
            match r {
                Some((parent, height, shard)) => receipt_find(self@.receipts, receipt_id) == Some(
                    ReceiptRow {
                        receipt_id,
                        block_height: height,
                        parent_transaction_hash: parent,
                        shard_id: shard,
                    },
                ),
                None => receipt_find(self@.receipts, receipt_id) is None,
            },
    {
        let mut i: usize = 0;
        while i < self.receipts.len()
            invariant
                i <= self.receipts@.len(),
                forall|a: int| 0 <= a < i ==> self@.receipts[a].receipt_id != receipt_id,
            decreases self.receipts@.len() - i,
        {
            if self.receipts[i].receipt_id == receipt_id {
                proof {
                    lemma_receipt_find_skip(self@.receipts, receipt_id, i as int);
                    assert(self@.receipts.skip(i as int)[0] == self@.receipts[i as int]);
                }
                let row = self.receipts[i];
                return Some((row.parent_transaction_hash, row.block_height, row.shard_id));
            }
            i = i + 1;
        }
        proof {
            lemma_receipt_find_skip(self@.receipts, receipt_id, self@.receipts.len() as int);
            assert(self@.receipts.skip(self@.receipts.len() as int).len() == 0);
        }
        None
    }
}

proof fn lemma_meta_find_skip(rows: Seq<(Seq<u8>, u64)>, id: Seq<u8>, i: int)
    requires
        0 <= i <= rows.len(),
        forall|j: int| 0 <= j < i ==> rows[j].0 != id,
    ensures
        meta_find(rows, id) == meta_find(rows.skip(i), id),
    decreases i,
{
    if i > 0 {
        assert(rows.skip(1).skip(i - 1) =~= rows.skip(i));
        lemma_meta_find_skip(rows.skip(1), id, i - 1);
    } else {
        assert(rows.skip(0) =~= rows);
    }
}

proof fn lemma_receipt_find_skip(rows: Seq<ReceiptRow>, id: CryptoHash, i: int)
    requires
        0 <= i <= rows.len(),
        forall|j: int| 0 <= j < i ==> rows[j].receipt_id != id,
    ensures
        receipt_find(rows, id) == receipt_find(rows.skip(i), id),
    decreases i,
{
    if i > 0 {
        assert(rows.skip(1).skip(i - 1) =~= rows.skip(i));
        lemma_receipt_find_skip(rows.skip(1), id, i - 1);
    } else {
        assert(rows.skip(0) =~= rows);
    }
}

// ---------------------------------------------------------------------------
// State-change snapshots for the sibling reader service: account, contract
// code and access-key values, looked up at the latest height at or before
// the requested block.
// ---------------------------------------------------------------------------

/// What kind of state a change row carries.
#[derive(Clone, Copy, PartialEq, Eq, Structural, Debug)]
pub enum StateKind {
    Account,
    ContractCode,
    AccessKey,
    Data,
}

/// One state-change row: the account, the hex-text key (empty but for
/// access keys), the block it was written at, and the value — none when
/// the change was a deletion.
#[derive(Clone, PartialEq, Debug)]
pub struct StateChangeRow {
    pub kind: StateKind,
    pub account_id: AccountId,
    pub key_hex: Vec<u8>,
    pub block_height: u64,
    pub block_hash: CryptoHash,
    pub data: Option<Vec<u8>>,
}

/// A failed snapshot lookup.
#[derive(Clone, Copy, PartialEq, Eq, Structural, Debug)]
pub enum QueryError {
    NotFound,
}

/// A row matches a snapshot query when kind, account and key agree and it
/// was written at or before the requested height.
pub open spec fn row_matches(
    r: crate::database::StateChangeRow,
    kind: StateKind,
    account: Seq<u8>,
    key: Seq<u8>,
    height: u64,
) -> bool {
    &&& r.kind == kind
    &&& r.account_id@ == account
    &&& r.key_hex@ == key
    &&& r.block_height <= height
}

/// The row a snapshot lookup returns: among the matching rows, the one
/// with the greatest height (the earliest such row on a tie).
pub open spec fn best_change(
    rows: Seq<StateChangeRow>,
    kind: StateKind,
    account: Seq<u8>,
    key: Seq<u8>,
    height: u64,
) -> Option<StateChangeRow>
    decreases rows.len(),
{
    if rows.len() == 0 {
        None
    } else {
        let rest = best_change(rows.skip(1), kind, account, key, height);
        if row_matches(rows[0], kind, account, key, height) {
            match rest {
                None => Some(rows[0]),
                Some(b) => if b.block_height > rows[0].block_height {
                    Some(b)
                } else {
                    Some(rows[0])
                },
            }
        } else {
            rest
        }
    }
}

proof fn lemma_best_change_push(
    rows: Seq<StateChangeRow>,
    x: StateChangeRow,
    kind: StateKind,
    account: Seq<u8>,
    key: Seq<u8>,
    height: u64,
)
    ensures
        best_change(rows.push(x), kind, account, key, height) == (match best_change(
            rows,
            kind,
            account,
            key,
            height,
        ) {
            None => if row_matches(x, kind, account, key, height) {
                Some(x)
            } else {
                None
            },
            Some(b) => if row_matches(x, kind, account, key, height) && x.block_height
                > b.block_height {
                Some(x)
            } else {
                Some(b)
            },
        }),
    decreases rows.len(),
{
    reveal_with_fuel(best_change, 3);
    if rows.len() == 0 {
        assert(rows.push(x)[0] == x);
        assert(rows.push(x).skip(1) =~= Seq::<StateChangeRow>::empty());
    } else {
        assert(rows.push(x)[0] == rows[0]);
        assert(rows.push(x).skip(1) =~= rows.skip(1).push(x));
        lemma_best_change_push(rows.skip(1), x, kind, account, key, height);
    }
}

/// The state-changes table, with the snapshot lookups the reader service
/// uses.
#[derive(Clone, PartialEq, Debug)]
pub struct StateChangesDb {
    pub rows: Vec<StateChangeRow>,
}

impl StateChangesDb {
    pub fn new() -> (r: StateChangesDb)
        ensures
            r.rows@.len() == 0,
    {
        StateChangesDb { rows: Vec::new() }
    }

    /// Record one state change.
    pub fn put(&mut self, row: StateChangeRow)
        ensures
            final(self).rows@ == old(self).rows@.push(row),
    {
        self.rows.push(row);
    }

    /// The latest matching row at or before the requested height: the
    /// snapshot the reader returns. `None` when no change matches.
    pub fn latest_at_or_before(
        &self,
        kind: StateKind,
        account: &AccountId,
        key_hex: &Vec<u8>,
        height: u64,
    ) -> (r: Option<&StateChangeRow>)
        ensures
            match r {
                Some(row) => {
                    &&& best_change(self.rows@, kind, account@, key_hex@, height) == Some(*row)
                    &&& forall|a: int|
                        0 <= a < self.rows@.len() && row_matches(
                            #[trigger] self.rows@[a],
                            kind,
                            account@,
                            key_hex@,
                            height,
                        ) ==> self.rows@[a].block_height <= row.block_height
                },
                None => {
                    &&& best_change(self.rows@, kind, account@, key_hex@, height) is None
                    &&& forall|a: int|
                        0 <= a < self.rows@.len() ==> !row_matches(
                            #[trigger] self.rows@[a],
                            kind,
                            account@,
                            key_hex@,
                            height,
                        )
                },
            },
    {
        let mut best: Option<usize> = None;
        let mut i: usize = 0;
        proof {
            assert(self.rows@.take(0) =~= Seq::<StateChangeRow>::empty());
        }
        while i < self.rows.len()
            invariant
                i <= self.rows@.len(),
                match best {
                    Some(b) => {
                        &&& b < i
                        &&& row_matches(self.rows@[b as int], kind, account@, key_hex@, height)
                        &&& best_change(self.rows@.take(i as int), kind, account@, key_hex@, height)
                            == Some(self.rows@[b as int])
                        &&& forall|a: int|
                            0 <= a < i && row_matches(
                                #[trigger] self.rows@[a],
                                kind,
                                account@,
                                key_hex@,
                                height,
                            ) ==> self.rows@[a].block_height <= self.rows@[
                                b as int
                            ].block_height
                    },
                    None => {
                        &&& best_change(self.rows@.take(i as int), kind, account@, key_hex@, height)
                            is None
                        &&& forall|a: int|
                            0 <= a < i ==> !row_matches(
                                #[trigger] self.rows@[a],
                                kind,
                                account@,
                                key_hex@,
                                height,
                            )
                    },
                },
            decreases self.rows@.len() - i,
        {
            proof {
                lemma_best_change_push(
                    self.rows@.take(i as int),
                    self.rows@[i as int],
                    kind,
                    account@,
                    key_hex@,
                    height,
                );
                assert(self.rows@.take(i + 1) =~= self.rows@.take(i as int).push(
                    self.rows@[i as int],
                ));
            }
            let row = &self.rows[i];
            let matches = row.kind == kind && crate::primitives::bytes_eq(
                &row.account_id.bytes,
                &account.bytes,
            ) && crate::primitives::bytes_eq(&row.key_hex, key_hex) && row.block_height <= height;
            if matches {
                match best {
                    None => {
                        best = Some(i);
                    },
                    Some(b) => {
                        if self.rows[i].block_height > self.rows[b].block_height {
                            best = Some(i);
                        }
                    },
                }
            }
            i = i + 1;
        }
        proof {
            assert(self.rows@.take(self.rows@.len() as int) =~= self.rows@);
        }
        match best {
            None => None,
            Some(b) => Some(&self.rows[b]),
        }
    }

    /// The account snapshot at a block: the latest stored account value at
    /// or before the height. Fails when no change matches or the latest
    /// change deleted the account.
    pub fn get_account(&self, account_id: &AccountId, request_block_height: u64) -> (r: Result<
        QueryData<Vec<u8>>,
        QueryError,
    >)
        ensures
            match best_change(self.rows@, StateKind::Account, account_id@, Seq::empty(), request_block_height) {
                None => r == Err::<QueryData<Vec<u8>>, QueryError>(QueryError::NotFound),
                Some(row) => match row.data {
                    None => r == Err::<QueryData<Vec<u8>>, QueryError>(QueryError::NotFound),
                    Some(value) => {
                        &&& r is Ok
                        &&& r->Ok_0.data@ == value@
                        &&& r->Ok_0.block_height == row.block_height
                        &&& r->Ok_0.block_hash == row.block_hash
                    },
                },
            },
    {
        let empty_key: Vec<u8> = Vec::new();
        proof {
            assert(empty_key@ =~= Seq::<u8>::empty());
        }
        match self.latest_at_or_before(StateKind::Account, account_id, &empty_key, request_block_height) {
            None => Err(QueryError::NotFound),
            Some(row) => match &row.data {
                None => Err(QueryError::NotFound),
                Some(value) => Ok(QueryData {
                    data: clone_bytes(value),
                    block_height: row.block_height,
                    block_hash: row.block_hash,
                }),
            },
        }
    }

    /// The contract-code snapshot at a block, by the same rule.
    pub fn get_contract_code(&self, account_id: &AccountId, request_block_height: u64) -> (r:
        Result<QueryData<Vec<u8>>, QueryError>)
        ensures
            match best_change(self.rows@, StateKind::ContractCode, account_id@, Seq::empty(), request_block_height) {
                None => r == Err::<QueryData<Vec<u8>>, QueryError>(QueryError::NotFound),
                Some(row) => match row.data {
                    None => r == Err::<QueryData<Vec<u8>>, QueryError>(QueryError::NotFound),
                    Some(value) => {
                        &&& r is Ok
                        &&& r->Ok_0.data@ == value@
                        &&& r->Ok_0.block_height == row.block_height
                        &&& r->Ok_0.block_hash == row.block_hash
                    },
                },
            },
    {
        let empty_key: Vec<u8> = Vec::new();
        proof {
            assert(empty_key@ =~= Seq::<u8>::empty());
        }
        match self.latest_at_or_before(
            StateKind::ContractCode,
            account_id,
            &empty_key,
            request_block_height,
        ) {
            None => Err(QueryError::NotFound),
            Some(row) => match &row.data {
                None => Err(QueryError::NotFound),
                Some(value) => Ok(QueryData {
                    data: clone_bytes(value),
                    block_height: row.block_height,
                    block_hash: row.block_hash,
                }),
            },
        }
    }

    /// The access-key snapshot at a block. Access keys are stored under the
    /// hex text of the serialized public key, so the raw key bytes are
    /// encoded before the lookup.
    pub fn get_access_key(
        &self,
        account_id: &AccountId,
        request_block_height: u64,
        public_key: &Vec<u8>,
    ) -> (r: Result<QueryData<Vec<u8>>, QueryError>)
        ensures
            match best_change(self.rows@, StateKind::AccessKey, account_id@, crate::hexutil::hex_of(public_key@), request_block_height) {
                None => r == Err::<QueryData<Vec<u8>>, QueryError>(QueryError::NotFound),
                Some(row) => match row.data {
                    None => r == Err::<QueryData<Vec<u8>>, QueryError>(QueryError::NotFound),
                    Some(value) => {
                        &&& r is Ok
                        &&& r->Ok_0.data@ == value@
                        &&& r->Ok_0.block_height == row.block_height
                        &&& r->Ok_0.block_hash == row.block_hash
                    },
                },
            },
    {
        let key_hex = crate::hexutil::hex_encode(public_key);
        match self.latest_at_or_before(StateKind::AccessKey, account_id, &key_hex, request_block_height) {
            None => Err(QueryError::NotFound),
            Some(row) => match &row.data {
                None => Err(QueryError::NotFound),
                Some(value) => Ok(QueryData {
                    data: clone_bytes(value),
                    block_height: row.block_height,
                    block_hash: row.block_hash,
                }),
            },
        }
    }
}

/// The decoded state keys of the rows that match an account and whose hex
/// text starts with the given prefix, in row order; rows whose key text is
/// not valid hex are dropped.
pub open spec fn keys_with_prefix(
    rows: Seq<StateChangeRow>,
    account: Seq<u8>,
    prefix: Seq<u8>,
) -> Seq<Seq<u8>>
    decreases rows.len(),
{
    if rows.len() == 0 {
        Seq::empty()
    } else {
        let rest = keys_with_prefix(rows.skip(1), account, prefix);
        if rows[0].kind == StateKind::Data && rows[0].account_id@ == account && prefix.len()
            <= rows[0].key_hex@.len() && rows[0].key_hex@.take(prefix.len() as int) == prefix
            && hex_valid(rows[0].key_hex@) {
            seq![unhex(rows[0].key_hex@)] + rest
        } else {
            rest
        }
    }
}

proof fn lemma_keys_with_prefix_push(
    rows: Seq<StateChangeRow>,
    x: StateChangeRow,
    account: Seq<u8>,
    prefix: Seq<u8>,
)
    ensures
        keys_with_prefix(rows.push(x), account, prefix) == (if x.kind == StateKind::Data
            && x.account_id@ == account && prefix.len() <= x.key_hex@.len() && x.key_hex@.take(
            prefix.len() as int,
        ) == prefix && hex_valid(x.key_hex@) {
            keys_with_prefix(rows, account, prefix).push(unhex(x.key_hex@))
        } else {
            keys_with_prefix(rows, account, prefix)
        }),
    decreases rows.len(),
{
    reveal_with_fuel(keys_with_prefix, 3);
    let matched = x.kind == StateKind::Data && x.account_id@ == account && prefix.len()
        <= x.key_hex@.len() && x.key_hex@.take(prefix.len() as int) == prefix && hex_valid(
        x.key_hex@,
    );
    if rows.len() == 0 {
        assert(rows.push(x)[0] == x);
        assert(rows.push(x).skip(1) =~= Seq::<StateChangeRow>::empty());
        if matched {
            assert(keys_with_prefix(rows.push(x), account, prefix) =~= keys_with_prefix(
                rows,
                account,
                prefix,
            ).push(unhex(x.key_hex@)));
        }
    } else {
        assert(rows.push(x)[0] == rows[0]);
        assert(rows.push(x).skip(1) =~= rows.skip(1).push(x));
        lemma_keys_with_prefix_push(rows.skip(1), x, account, prefix);
        if matched {
            assert(keys_with_prefix(rows.push(x), account, prefix) =~= keys_with_prefix(
                rows,
                account,
                prefix,
            ).push(unhex(x.key_hex@)));
        } else {
            assert(keys_with_prefix(rows.push(x), account, prefix) =~= keys_with_prefix(
                rows,
                account,
                prefix,
            ));
        }
    }
}

/// `p` is an initial segment of `s`, decided byte by byte.
fn bytes_prefix(p: &Vec<u8>, s: &Vec<u8>) -> (r: bool)
    ensures
        r == (p@.len() <= s@.len() && s@.take(p@.len() as int) == p@),
{
    if p.len() > s.len() {
        return false;
    }
    let mut i: usize = 0;
    while i < p.len()
        invariant
            i <= p@.len(),
            p@.len() <= s@.len(),
            forall|j: int| 0 <= j < i ==> s@[j] == p@[j],
        decreases p@.len() - i,
    {
        if s[i] != p[i] {
            proof {
                assert(s@.take(p@.len() as int)[i as int] != p@[i as int]);
            }
            return false;
        }
        i = i + 1;
    }
    proof {
        assert(s@.take(p@.len() as int) =~= p@);
    }
    true
}

impl StateChangesDb {
    /// The stored value of a state key at a block: the latest change of
    /// that key at or before the height. Fails when no change matches or
    /// the latest change deleted the key.
    pub fn get_state_key_value(
        &self,
        account_id: &AccountId,
        block_height: u64,
        key_data: &Vec<u8>,
    ) -> (r: Result<Vec<u8>, QueryError>)
        ensures
            match best_change(
                self.rows@,
                StateKind::Data,
                account_id@,
                crate::hexutil::hex_of(key_data@),
                block_height,
            ) {
                None => r == Err::<Vec<u8>, QueryError>(QueryError::NotFound),
                Some(row) => match row.data {
                    None => r == Err::<Vec<u8>, QueryError>(QueryError::NotFound),
                    Some(value) => r is Ok && r->Ok_0@ == value@,
                },
            },
    {
        let key_hex = crate::hexutil::hex_encode(key_data);
        match self.latest_at_or_before(StateKind::Data, account_id, &key_hex, block_height) {
            None => Err(QueryError::NotFound),
            Some(row) => match &row.data {
                None => Err(QueryError::NotFound),
                Some(value) => Ok(clone_bytes(value)),
            },
        }
    }

    /// All state keys of an account whose key starts with the given bytes:
    /// the prefix is hex-encoded for the scan, and each stored hex key is
    /// decoded back to raw bytes; rows whose key text is not hex are
    /// dropped, as the reader service drops them.
    pub fn get_state_keys_by_prefix(&self, account_id: &AccountId, prefix: &Vec<u8>) -> (r: Vec<
        Vec<u8>,
    >)
        ensures
            r@.map_values(|k: Vec<u8>| k@) == keys_with_prefix(
                self.rows@,
                account_id@,
                crate::hexutil::hex_of(prefix@),
            ),
    {
        let prefix_hex = crate::hexutil::hex_encode(prefix);
        let mut out: Vec<Vec<u8>> = Vec::new();
        let mut i: usize = 0;
        proof {
            assert(self.rows@.take(0) =~= Seq::<StateChangeRow>::empty());
            assert(out@.map_values(|k: Vec<u8>| k@) =~= keys_with_prefix(
                self.rows@.take(0),
                account_id@,
                prefix_hex@,
            ));
        }
        while i < self.rows.len()
            invariant
                i <= self.rows@.len(),
                prefix_hex@ == crate::hexutil::hex_of(prefix@),
                out@.map_values(|k: Vec<u8>| k@) == keys_with_prefix(
                    self.rows@.take(i as int),
                    account_id@,
                    prefix_hex@,
                ),
            decreases self.rows@.len() - i,
        {
            proof {
                lemma_keys_with_prefix_push(
                    self.rows@.take(i as int),
                    self.rows@[i as int],
                    account_id@,
                    prefix_hex@,
                );
                assert(self.rows@.take(i + 1) =~= self.rows@.take(i as int).push(
                    self.rows@[i as int],
                ));
            }
            let row = &self.rows[i];
            let is_data = match row.kind {
                StateKind::Data => true,
                _ => false,
            };
            if is_data && crate::primitives::bytes_eq(&row.account_id.bytes, &account_id.bytes)
                && bytes_prefix(&prefix_hex, &row.key_hex) {
                let ghost before = out@;
                match crate::hexutil::hex_decode(&row.key_hex) {
                    Some(key) => {
                        out.push(key);
                        proof {
                            assert(out@.map_values(|k: Vec<u8>| k@) =~= before.map_values(
                                |k: Vec<u8>| k@,
                            ).push(unhex(self.rows@[i as int].key_hex@)));
                        }
                    },
                    None => {},
                }
            }
            i = i + 1;
        }
        proof {
            assert(self.rows@.take(self.rows@.len() as int) =~= self.rows@);
        }
        out
    }
}

// ---------------------------------------------------------------------------
// Block and chunk point lookups for the sibling reader service.
// ---------------------------------------------------------------------------

/// One chunk row: the chunk hash resolved to the block and shard it was
/// stored for.
#[derive(Clone, Copy, PartialEq, Eq, Structural, Debug)]
pub struct ChunkRow {
    pub chunk_hash: CryptoHash,
    pub block_height: u64,
    pub shard_id: u64,
}

/// First block row for a block hash, if any.
pub open spec fn block_find(rows: Seq<BlockRecord>, hash: CryptoHash) -> Option<BlockRecord>
    decreases rows.len(),
{
    if rows.len() == 0 {
        None
    } else if rows[0].hash == hash {
        Some(rows[0])
    } else {
        block_find(rows.skip(1), hash)
    }
}

/// First chunk row for a chunk hash, if any.
pub open spec fn chunk_find(rows: Seq<ChunkRow>, hash: CryptoHash) -> Option<ChunkRow>
    decreases rows.len(),
{
    if rows.len() == 0 {
        None
    } else if rows[0].chunk_hash == hash {
        Some(rows[0])
    } else {
        chunk_find(rows.skip(1), hash)
    }
}

proof fn lemma_block_find_skip(rows: Seq<BlockRecord>, hash: CryptoHash, i: int)
    requires
        0 <= i <= rows.len(),
        forall|j: int| 0 <= j < i ==> rows[j].hash != hash,
    ensures
        block_find(rows, hash) == block_find(rows.skip(i), hash),
    decreases i,
{
    if i > 0 {
        assert(rows.skip(1).skip(i - 1) =~= rows.skip(i));
        lemma_block_find_skip(rows.skip(1), hash, i - 1);
    } else {
        assert(rows.skip(0) =~= rows);
    }
}

proof fn lemma_chunk_find_skip(rows: Seq<ChunkRow>, hash: CryptoHash, i: int)
    requires
        0 <= i <= rows.len(),
        forall|j: int| 0 <= j < i ==> rows[j].chunk_hash != hash,
    ensures
        chunk_find(rows, hash) == chunk_find(rows.skip(i), hash),
    decreases i,
{
    if i > 0 {
        assert(rows.skip(1).skip(i - 1) =~= rows.skip(i));
        lemma_chunk_find_skip(rows.skip(1), hash, i - 1);
    } else {
        assert(rows.skip(0) =~= rows);
    }
}

/// The block and chunk tables of the reader schema, with their point
/// lookups.
#[derive(Clone, PartialEq, Debug)]
pub struct BlockIndexDb {
    pub blocks: Vec<BlockRecord>,
    pub chunks: Vec<ChunkRow>,
}

impl BlockIndexDb {
    pub fn new() -> (r: BlockIndexDb)
        ensures
            r.blocks@.len() == 0,
            r.chunks@.len() == 0,
    {
        BlockIndexDb { blocks: Vec::new(), chunks: Vec::new() }
    }

    pub fn put_block(&mut self, row: BlockRecord)
        ensures
            final(self).blocks@ == old(self).blocks@.push(row),
            final(self).chunks@ == old(self).chunks@,
    {
        self.blocks.push(row);
    }

    pub fn put_chunk(&mut self, row: ChunkRow)
        ensures
            final(self).chunks@ == old(self).chunks@.push(row),
            final(self).blocks@ == old(self).blocks@,
    {
        self.chunks.push(row);
    }

    /// The height of the block with the given hash. Fails exactly when no
    /// block row carries the hash.
    pub fn get_block_by_hash(&self, block_hash: CryptoHash) -> (r: Result<u64, QueryError>)
        ensures
            match block_find(self.blocks@, block_hash) {
                Some(row) => r == Ok::<u64, QueryError>(row.height),
                None => r == Err::<u64, QueryError>(QueryError::NotFound),
            },
    {
        let mut i: usize = 0;
        while i < self.blocks.len()
            invariant
                i <= self.blocks@.len(),
                forall|a: int| 0 <= a < i ==> self.blocks@[a].hash != block_hash,
            decreases self.blocks@.len() - i,
        {
            if self.blocks[i].hash == block_hash {
                proof {
                    lemma_block_find_skip(self.blocks@, block_hash, i as int);
                    assert(self.blocks@.skip(i as int)[0] == self.blocks@[i as int]);
                }
                return Ok(self.blocks[i].height);
            }
            i = i + 1;
        }
        proof {
            lemma_block_find_skip(self.blocks@, block_hash, self.blocks@.len() as int);
            assert(self.blocks@.skip(self.blocks@.len() as int).len() == 0);
        }
        Err(QueryError::NotFound)
    }

    /// The block height and shard the chunk with the given hash was stored
    /// for. Fails exactly when no chunk row carries the hash.
    pub fn get_block_by_chunk_hash(&self, chunk_hash: CryptoHash) -> (r: Result<
        BlockHeightShardId,
        QueryError,
    >)
        ensures
            match chunk_find(self.chunks@, chunk_hash) {
                Some(row) => r == Ok::<BlockHeightShardId, QueryError>(
                    BlockHeightShardId(row.block_height, row.shard_id),
                ),
                None => r == Err::<BlockHeightShardId, QueryError>(QueryError::NotFound),
            },
    {
        let mut i: usize = 0;
        while i < self.chunks.len()
            invariant
                i <= self.chunks@.len(),
                forall|a: int| 0 <= a < i ==> self.chunks@[a].chunk_hash != chunk_hash,
            decreases self.chunks@.len() - i,
        {
            if self.chunks[i].chunk_hash == chunk_hash {
                proof {
                    lemma_chunk_find_skip(self.chunks@, chunk_hash, i as int);
                    assert(self.chunks@.skip(i as int)[0] == self.chunks@[i as int]);
                }
                let row = self.chunks[i];
                return Ok(BlockHeightShardId(row.block_height, row.shard_id));
            }
            i = i + 1;
        }
        proof {
            lemma_chunk_find_skip(self.chunks@, chunk_hash, self.chunks@.len() as int);
            assert(self.chunks@.skip(self.chunks@.len() as int).len() == 0);
        }
        Err(QueryError::NotFound)
    }
}

// ---------------------------------------------------------------------------
// Reader-side row conversions.
// ---------------------------------------------------------------------------

/// A failed conversion of a stored row into a reader record.
#[derive(Clone, Copy, PartialEq, Eq, Structural, Debug)]
pub enum RowError {
    BadBlockHeight,
    BadShardId,
    BadReceiptId,
    BadParentTransactionHash,
    BadBlockHash,
}

impl BlockHeightShardId {
    /// Builds the pair from stored numerics; each may have failed its
    /// conversion to an unsigned height upstream.
    pub fn try_from_parts(height: Option<u64>, shard_id: Option<u64>) -> (r: Result<
        BlockHeightShardId,
        RowError,
    >)
        ensures
            match r {
                Ok(v) => height is Some && shard_id is Some && v == BlockHeightShardId(
                    height->Some_0,
                    shard_id->Some_0,
                ),
                Err(e) => (height is None || shard_id is None) && e == (if height is None {
                    RowError::BadBlockHeight
                } else {
                    RowError::BadShardId
                }),
            },
    {
        match height {
            None => Err(RowError::BadBlockHeight),
            Some(h) => match shard_id {
                None => Err(RowError::BadShardId),
                Some(s) => Ok(BlockHeightShardId(h, s)),
            },
        }
    }
}

impl BlockRecord {
    /// A block row from its stored textual hash and height.
    pub fn try_from_row(hash_text: &Vec<u8>, height: Option<u64>) -> (r: Result<
        BlockRecord,
        RowError,
    >)
        ensures
            r is Err <==> (height is None || !hash_text_ok(hash_text@)),
            match r {
                Ok(v) => {
                    &&& height == Some(v.height)
                    &&& hash_text_ok(hash_text@)
                    &&& hash_bytes(v.hash) == unhex(hash_text@)
                },
                Err(e) => e == (if height is None {
                    RowError::BadBlockHeight
                } else {
                    RowError::BadBlockHash
                }),
            },
    {
        let h = match height {
            None => {
                return Err(RowError::BadBlockHeight);
            },
            Some(h) => h,
        };
        match CryptoHash::try_from_text(hash_text) {
            None => Err(RowError::BadBlockHash),
            Some(hash) => Ok(BlockRecord { height: h, hash }),
        }
    }
}

impl ReceiptRecord {
    /// A reverse-index record from a stored relational row: the textual
    /// hashes are parsed, the numerics must have converted, and the
    /// receiver account is carried through as it is.
    pub fn try_from_row(
        receipt_id_text: &Vec<u8>,
        parent_hash_text: &Vec<u8>,
        receiver_id: AccountId,
        block_height: Option<u64>,
        block_hash_text: &Vec<u8>,
        shard_id: Option<u64>,
    ) -> (r: Result<ReceiptRecord, RowError>)
        ensures
            r is Err <==> !({
                &&& hash_text_ok(receipt_id_text@)
                &&& hash_text_ok(parent_hash_text@)
                &&& hash_text_ok(block_hash_text@)
                &&& block_height is Some
                &&& shard_id is Some
            }),
            match r {
                Ok(v) => {
                    &&& hash_bytes(v.receipt_id) == unhex(receipt_id_text@)
                    &&& hash_bytes(v.parent_transaction_hash) == unhex(parent_hash_text@)
                    &&& hash_bytes(v.block_hash) == unhex(block_hash_text@)
                    &&& block_height == Some(v.block_height)
                    &&& shard_id == Some(v.shard_id)
                    &&& v.receiver_id@ == receiver_id@
                },
                Err(e) => e == (if !hash_text_ok(receipt_id_text@) {
                    RowError::BadReceiptId
                } else if !hash_text_ok(parent_hash_text@) {
                    RowError::BadParentTransactionHash
                } else if block_height is None {
                    RowError::BadBlockHeight
                } else if !hash_text_ok(block_hash_text@) {
                    RowError::BadBlockHash
                } else {
                    RowError::BadShardId
                }),
            },
    {
        let receipt_id = match CryptoHash::try_from_text(receipt_id_text) {
            None => {
                return Err(RowError::BadReceiptId);
            },
            Some(h) => h,
        };
        let parent_transaction_hash = match CryptoHash::try_from_text(parent_hash_text) {
            None => {
                return Err(RowError::BadParentTransactionHash);
            },
            Some(h) => h,
        };
        let bh = match block_height {
            None => {
                return Err(RowError::BadBlockHeight);
            },
            Some(h) => h,
        };
        let block_hash = match CryptoHash::try_from_text(block_hash_text) {
            None => {
                return Err(RowError::BadBlockHash);
            },
            Some(h) => h,
        };
        let sid = match shard_id {
            None => {
                return Err(RowError::BadShardId);
            },
            Some(s) => s,
        };
        Ok(ReceiptRecord {
            receipt_id,
            parent_transaction_hash,
            receiver_id,
            block_height: bh,
            block_hash,
            shard_id: sid,
        })
    }
}

impl<T> QueryData<T> {
    /// A query result from a stored value and the block it was last
    /// updated at.
    pub fn from_parts(data: T, block_height: u64, block_hash: CryptoHash) -> (r: QueryData<T>)
        ensures
            r.data == data,
            r.block_height == block_height,
            r.block_hash == block_hash,
    {
        QueryData { data, block_height, block_hash }
    }
}

} // verus!
