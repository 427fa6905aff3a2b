//! The stream driver, one block at a time: process the block, write the
//! frozen records and reverse-index rows, then advance the cursor — the
//! single commit marker. The whole step is pinned to a spec-level function
//! of the previous state and the message, which gives determinism, and the
//! cursor is shown non-decreasing over any in-order stream.

use vstd::prelude::*;
use crate::collector::{
    BlockMessage,
    SpecBlock,
    block_well_formed,
    spec_block_wf,
    process_block,
    spec_process_block,
    view_tds,
};
use crate::database::{InMemoryDb, SpecDb, txrow_put, receipt_put, meta_put, meta_find, SpecTxRow, lemma_meta_put_find};
use crate::primitives::{TransactionKey, SpecTransactionDetails};
use crate::storage::{HashStorage, SpecHashStorage, WatchedReceipt, hs_wf};
use crate::codec::{td_encodable, enc_td};

verus! {

/// Why a block was skipped; the cursor does not advance, so the block is
/// processed again after a restart.
#[derive(Clone, Copy, PartialEq, Eq, Structural, Debug)]
pub enum IndexError {
    /// An indexed transaction did not carry its own outcome.
    MalformedBlock,
    /// A frozen record does not fit the codec's length prefixes.
    RecordTooLarge,
}

/// One indexer instance: in-memory assembly state, the storage backend,
/// the instance identifier, the retention ceiling in blocks, and the
/// metrics counters.
#[derive(Clone, PartialEq, Debug)]
pub struct TxIndexer {
    pub state: HashStorage,
    pub db: InMemoryDb,
    pub indexer_id: Vec<u8>,
    pub retention: u64,
    pub blocks_processed: u64,
    pub latest_block_height: i64,
    pub orphaned_total: u64,
    pub abandoned_total: u64,
}

#[verifier::ext_equal]
pub ghost struct SpecIndexer {
    pub state: SpecHashStorage,
    pub db: SpecDb,
    pub indexer_id: Seq<u8>,
    pub retention: u64,
}

impl View for TxIndexer {
    type V = SpecIndexer;

    open spec fn view(&self) -> SpecIndexer {
        SpecIndexer {
            state: self.state@,
            db: self.db@,
            indexer_id: self.indexer_id@,
            retention: self.retention,
        }
    }
}

/// The retention cutoff for a block: entries anchored below it are evicted.
pub open spec fn spec_cutoff(h: u64, retention: u64) -> u64 {
    if h >= retention {
        (h - retention) as u64
    } else {
        0
    }
}

pub open spec fn all_encodable(fins: Seq<(TransactionKey, SpecTransactionDetails)>) -> bool {
    forall|i: int| 0 <= i < fins.len() ==> td_encodable((#[trigger] fins[i]).1)
}

/// The transactions table after committing the frozen records, in order.
pub open spec fn db_commit_fins(
    rows: Seq<SpecTxRow>,
    fins: Seq<(TransactionKey, SpecTransactionDetails)>,
) -> Seq<SpecTxRow>
    decreases fins.len(),
{
    if fins.len() == 0 {
        rows
    } else {
        db_commit_fins(
            txrow_put(
                rows,
                SpecTxRow {
                    transaction_hash: fins[0].1.transaction.hash,
                    block_height: fins[0].0.block_height,
                    account_id: fins[0].1.transaction.signer_id,
                    data: enc_td(fins[0].1),
                },
            ),
            fins.skip(1),
        )
    }
}

/// The reverse-index table after committing the drained rows, in order.
pub open spec fn db_commit_rows(
    rows: Seq<crate::database::ReceiptRow>,
    drained: Seq<WatchedReceipt>,
) -> Seq<crate::database::ReceiptRow>
    decreases drained.len(),
{
    if drained.len() == 0 {
        rows
    } else {
        db_commit_rows(
            receipt_put(
                rows,
                crate::database::ReceiptRow {
                    receipt_id: drained[0].receipt_id,
                    block_height: drained[0].block_height,
                    parent_transaction_hash: drained[0].key.transaction_hash,
                    shard_id: drained[0].shard_id,
                },
            ),
            drained.skip(1),
        )
    }
}

/// One driver step. A malformed block changes nothing. A block whose
/// frozen records do not all fit the codec advances the in-memory state
/// but writes nothing, and the cursor stays, so the block is retried.
/// Otherwise the records and rows are written and then, last, the cursor
/// advances to the block's height.
pub open spec fn spec_handle(s: SpecIndexer, b: SpecBlock) -> SpecIndexer {
    if !spec_block_wf(b) {
        s
    } else {
        let res = spec_process_block(s.state, b, spec_cutoff(b.block_height, s.retention));
        if !all_encodable(res.finalized) {
            SpecIndexer { state: res.st, ..s }
        } else {
            SpecIndexer {
                state: res.st,
                db: SpecDb {
                    transactions: db_commit_fins(s.db.transactions, res.finalized),
                    receipts: db_commit_rows(s.db.receipts, res.records),
                    meta: meta_put(s.db.meta, s.indexer_id, b.block_height),
                },
                indexer_id: s.indexer_id,
                retention: s.retention,
            }
        }
    }
}

/// A whole stream prefix, in arrival order.
pub open spec fn spec_run(s: SpecIndexer, msgs: Seq<SpecBlock>) -> SpecIndexer
    decreases msgs.len(),
{
    if msgs.len() == 0 {
        s
    } else {
        spec_run(spec_handle(s, msgs[0]), msgs.skip(1))
    }
}

proof fn lemma_db_commit_fins_push(
    rows: Seq<SpecTxRow>,
    fins: Seq<(TransactionKey, SpecTransactionDetails)>,
    x: (TransactionKey, SpecTransactionDetails),
)
    ensures
        db_commit_fins(rows, fins.push(x)) == txrow_put(
            db_commit_fins(rows, fins),
            SpecTxRow {
                transaction_hash: x.1.transaction.hash,
                block_height: x.0.block_height,
                account_id: x.1.transaction.signer_id,
                data: enc_td(x.1),
            },
        ),
    decreases fins.len(),
{
    reveal_with_fuel(db_commit_fins, 3);
    if fins.len() == 0 {
        assert(fins.push(x)[0] == x);
        assert(fins.push(x).skip(1) =~= Seq::<(TransactionKey, SpecTransactionDetails)>::empty());
    } else {
        assert(fins.push(x)[0] == fins[0]);
        assert(fins.push(x).skip(1) =~= fins.skip(1).push(x));
        lemma_db_commit_fins_push(
            txrow_put(
                rows,
                SpecTxRow {
                    transaction_hash: fins[0].1.transaction.hash,
                    block_height: fins[0].0.block_height,
                    account_id: fins[0].1.transaction.signer_id,
                    data: enc_td(fins[0].1),
                },
            ),
            fins.skip(1),
            x,
        );
    }
}

proof fn lemma_db_commit_rows_push(
    rows: Seq<crate::database::ReceiptRow>,
    drained: Seq<WatchedReceipt>,
    x: WatchedReceipt,
)
    ensures
        db_commit_rows(rows, drained.push(x)) == receipt_put(
            db_commit_rows(rows, drained),
            crate::database::ReceiptRow {
                receipt_id: x.receipt_id,
                block_height: x.block_height,
                parent_transaction_hash: x.key.transaction_hash,
                shard_id: x.shard_id,
            },
        ),
    decreases drained.len(),
{
    reveal_with_fuel(db_commit_rows, 3);
    if drained.len() == 0 {
        assert(drained.push(x)[0] == x);
        assert(drained.push(x).skip(1) =~= Seq::<WatchedReceipt>::empty());
    } else {
        assert(drained.push(x)[0] == drained[0]);
        assert(drained.push(x).skip(1) =~= drained.skip(1).push(x));
        lemma_db_commit_rows_push(
            receipt_put(
                rows,
                crate::database::ReceiptRow {
                    receipt_id: drained[0].receipt_id,
                    block_height: drained[0].block_height,
                    parent_transaction_hash: drained[0].key.transaction_hash,
                    shard_id: drained[0].shard_id,
                },
            ),
            drained.skip(1),
            x,
        );
    }
}

fn saturating_i64(h: u64) -> (r: i64)
    ensures
        r == (if h <= i64::MAX { h as i64 } else { i64::MAX }),
{
    if h <= 0x7fff_ffff_ffff_ffffu64 {
        h as i64
    } else {
        i64::MAX
    }
}

fn saturating_add(a: u64, b: u64) -> (r: u64)
    ensures
        r == (if a + b <= u64::MAX { (a + b) as u64 } else { u64::MAX }),
{
    if a <= u64::MAX - b {
        a + b
    } else {
        u64::MAX
    }
}

impl TxIndexer {
    /// A fresh instance over a backend; the caller resumes from the stored
    /// cursor via the start-mode decision.
    pub fn new(db: InMemoryDb, indexer_id: Vec<u8>, retention: u64) -> (r: TxIndexer)
        ensures
            hs_wf(r@.state),
            r@.db == db@,
            r@.indexer_id == indexer_id@,
            r@.retention == retention,
    {
        TxIndexer {
            state: HashStorage::new(),
            db,
            indexer_id,
            retention,
            blocks_processed: 0,
            latest_block_height: 0,
            orphaned_total: 0,
            abandoned_total: 0,
        }
    }

    /// Handles one block message in arrival order: assembly, durable
    /// writes, then the cursor. A skipped block leaves the cursor alone.
    pub fn handle_streamer_message(&mut self, msg: &BlockMessage) -> (r: Result<u64, IndexError>)
        requires
            hs_wf(old(self)@.state),
        ensures
            hs_wf(final(self)@.state),
            final(self)@ == spec_handle(old(self)@, msg@),
            match r {
                Ok(h) => {
                    &&& h == msg@.block_height
                    &&& spec_block_wf(msg@)
                    &&& all_encodable(
                        spec_process_block(
                            old(self)@.state,
                            msg@,
                            spec_cutoff(msg@.block_height, old(self)@.retention),
                        ).finalized,
                    )
                    &&& final(self).blocks_processed == (if old(self).blocks_processed < u64::MAX {
                        (old(self).blocks_processed + 1) as u64
                    } else {
                        old(self).blocks_processed
                    })
                    &&& final(self).latest_block_height == (if msg@.block_height <= i64::MAX {
                        msg@.block_height as i64
                    } else {
                        i64::MAX
                    })
                },
                Err(e) => {
                    &&& (e == IndexError::MalformedBlock <==> !spec_block_wf(msg@))
                    &&& (e == IndexError::RecordTooLarge <==> spec_block_wf(msg@)
                        && !all_encodable(
                        spec_process_block(
                            old(self)@.state,
                            msg@,
                            spec_cutoff(msg@.block_height, old(self)@.retention),
                        ).finalized,
                    ))
                    &&& final(self).blocks_processed == old(self).blocks_processed
                    &&& final(self).latest_block_height == old(self).latest_block_height
                },
            },
    {
        let ghost s0 = self@;
        if !block_well_formed(msg) {
            proof {
                assert(self@ =~= spec_handle(s0, msg@));
            }
            return Err(IndexError::MalformedBlock);
        }
        let cutoff = if msg.block_height >= self.retention {
            msg.block_height - self.retention
        } else {
            0
        };
        proof {
            assert(cutoff == spec_cutoff(msg@.block_height, s0.retention));
        }
        let effects = process_block(&mut self.state, msg, cutoff);
        let ghost res = spec_process_block(s0.state, msg@, spec_cutoff(msg@.block_height, s0.retention));
        proof {
            assert(view_tds(effects.finalized@) == res.finalized);
            assert(self.state@ == res.st);
        }
        let mut i: usize = 0;
        while i < effects.finalized.len()
            invariant
                i <= effects.finalized@.len(),
                s0 == old(self)@,
                self.blocks_processed == old(self).blocks_processed,
                self.latest_block_height == old(self).latest_block_height,
                view_tds(effects.finalized@) == res.finalized,
                res == spec_process_block(
                    s0.state,
                    msg@,
                    spec_cutoff(msg@.block_height, s0.retention),
                ),
                spec_block_wf(msg@),
                s0.db == self@.db,
                s0.indexer_id == self@.indexer_id,
                s0.retention == self@.retention,
                self.state@ == res.st,
                hs_wf(self@.state),
                forall|a: int| 0 <= a < i ==> td_encodable(#[trigger] view_tds(effects.finalized@)[a].1),
            decreases effects.finalized@.len() - i,
        {
            if !effects.finalized[i].1.is_encodable() {
                proof {
                    assert(view_tds(effects.finalized@)[i as int].1 == effects.finalized@[
                        i as int
                    ].1@);
                    assert(!td_encodable(view_tds(effects.finalized@)[i as int].1));
                    assert(!td_encodable(res.finalized[i as int].1));
                    assert(!all_encodable(res.finalized));
                    assert(self@ =~= spec_handle(s0, msg@));
                }
                return Err(IndexError::RecordTooLarge);
            }
            i = i + 1;
        }
        proof {
            assert(all_encodable(res.finalized));
        }
        let ghost db0 = self.db@;
        let mut fi: usize = 0;
        proof {
            assert(res.finalized.take(0) =~= Seq::<(TransactionKey, SpecTransactionDetails)>::empty());
        }
        while fi < effects.finalized.len()
            invariant
                fi <= effects.finalized@.len(),
                self.blocks_processed == old(self).blocks_processed,
                self.latest_block_height == old(self).latest_block_height,
                view_tds(effects.finalized@) == res.finalized,
                all_encodable(res.finalized),
                self.state@ == res.st,
                self.indexer_id@ == s0.indexer_id,
                self.retention == s0.retention,
                self.db@.transactions == db_commit_fins(
                    db0.transactions,
                    res.finalized.take(fi as int),
                ),
                self.db@.receipts == db0.receipts,
                self.db@.meta == db0.meta,
            decreases effects.finalized@.len() - fi,
        {
            let entry = &effects.finalized[fi];
            proof {
                assert(view_tds(effects.finalized@)[fi as int] == res.finalized[fi as int]);
                assert(td_encodable(res.finalized[fi as int].1));
            }
            self.db.add_transaction(&entry.1, entry.0.block_height);
            proof {
                lemma_db_commit_fins_push(
                    db0.transactions,
                    res.finalized.take(fi as int),
                    res.finalized[fi as int],
                );
                assert(res.finalized.take(fi + 1) =~= res.finalized.take(fi as int).push(
                    res.finalized[fi as int],
                ));
            }
            fi = fi + 1;
        }
        proof {
            assert(res.finalized.take(res.finalized.len() as int) =~= res.finalized);
        }
        let ghost db1 = self.db@;
        let mut ri: usize = 0;
        proof {
            assert(res.records.take(0) =~= Seq::<WatchedReceipt>::empty());
        }
        while ri < effects.receipt_rows.len()
            invariant
                ri <= effects.receipt_rows@.len(),
                self.blocks_processed == old(self).blocks_processed,
                self.latest_block_height == old(self).latest_block_height,
                effects.receipt_rows@ == res.records,
                self.state@ == res.st,
                self.indexer_id@ == s0.indexer_id,
                self.retention == s0.retention,
                self.db@.receipts == db_commit_rows(db1.receipts, res.records.take(ri as int)),
                self.db@.transactions == db1.transactions,
                self.db@.meta == db1.meta,
            decreases effects.receipt_rows@.len() - ri,
        {
            let row = effects.receipt_rows[ri];
            self.db.add_receipt(row.receipt_id, row.key.transaction_hash, row.block_height, row.shard_id);
            proof {
                lemma_db_commit_rows_push(
                    db1.receipts,
                    res.records.take(ri as int),
                    res.records[ri as int],
                );
                assert(res.records.take(ri + 1) =~= res.records.take(ri as int).push(
                    res.records[ri as int],
                ));
            }
            ri = ri + 1;
        }
        proof {
            assert(res.records.take(res.records.len() as int) =~= res.records);
        }
        self.db.update_meta(&self.indexer_id, msg.block_height);
        self.blocks_processed = saturating_add(self.blocks_processed, 1);
        self.latest_block_height = saturating_i64(msg.block_height);
        self.orphaned_total = saturating_add(
            self.orphaned_total,
            saturating_add(effects.orphan_receipts, effects.orphan_outcomes),
        );
        self.abandoned_total = saturating_add(self.abandoned_total, effects.abandoned);
        proof {
            assert(self@ =~= spec_handle(s0, msg@));
        }
        Ok(msg.block_height)
    }

    /// Applies a stream prefix in order, skipping blocks that error, as the
    /// driver does. The result is a function of the starting state and the
    /// prefix alone.
    pub fn run(&mut self, msgs: &Vec<BlockMessage>)
        requires
            hs_wf(old(self)@.state),
        ensures
            hs_wf(final(self)@.state),
            final(self)@ == spec_run(old(self)@, msgs@.map_values(|m: BlockMessage| m@)),
    {
        let ghost s0 = self@;
        let ghost bs = msgs@.map_values(|m: BlockMessage| m@);
        let mut i: usize = 0;
        proof {
            assert(bs.take(0) =~= Seq::<SpecBlock>::empty());
        }
        while i < msgs.len()
            invariant
                i <= msgs@.len(),
                bs == msgs@.map_values(|m: BlockMessage| m@),
                hs_wf(self@.state),
                self@ == spec_run(s0, bs.take(i as int)),
            decreases msgs@.len() - i,
        {
            let _ = self.handle_streamer_message(&msgs[i]);
            proof {
                lemma_spec_run_push(s0, bs.take(i as int), bs[i as int]);
                assert(bs.take(i + 1) =~= bs.take(i as int).push(bs[i as int]));
            }
            i = i + 1;
        }
        proof {
            assert(bs.take(bs.len() as int) =~= bs);
        }
    }
}

proof fn lemma_spec_run_push(s: SpecIndexer, msgs: Seq<SpecBlock>, x: SpecBlock)
    ensures
        spec_run(s, msgs.push(x)) == spec_handle(spec_run(s, msgs), x),
    decreases msgs.len(),
{
    reveal_with_fuel(spec_run, 3);
    if msgs.len() == 0 {
        assert(msgs.push(x)[0] == x);
        assert(msgs.push(x).skip(1) =~= Seq::<SpecBlock>::empty());
    } else {
        assert(msgs.push(x)[0] == msgs[0]);
        assert(msgs.push(x).skip(1) =~= msgs.skip(1).push(x));
        lemma_spec_run_push(spec_handle(s, msgs[0]), msgs.skip(1), x);
    }
}

/// The stored cursor of the instance, if any.
pub open spec fn cursor_of(s: SpecIndexer) -> Option<u64> {
    meta_find(s.db.meta, s.indexer_id)
}

/// A driver step never changes the instance identity or the retention
/// ceiling, and moves the cursor only to the handled block's height.
pub proof fn lemma_handle_cursor(s: SpecIndexer, b: SpecBlock)
    ensures
        spec_handle(s, b).indexer_id == s.indexer_id,
        spec_handle(s, b).retention == s.retention,
        cursor_of(spec_handle(s, b)) == cursor_of(s) || cursor_of(spec_handle(s, b)) == Some(
            b.block_height,
        ),
{
    if spec_block_wf(b) {
        let res = spec_process_block(s.state, b, spec_cutoff(b.block_height, s.retention));
        if all_encodable(res.finalized) {
            lemma_meta_put_find(s.db.meta, s.indexer_id, b.block_height, s.indexer_id);
        }
    }
}

/// Cursor monotonicity: over any stream prefix in block order whose
/// heights are not below the stored cursor, the persisted cursor never
/// decreases. Resumption at or before the cursor-following block keeps
/// the premise across restarts.
pub proof fn lemma_cursor_monotone(s: SpecIndexer, msgs: Seq<SpecBlock>)
    requires
        forall|i: int, j: int|
            0 <= i < j < msgs.len() ==> (#[trigger] msgs[i]).block_height <= (#[trigger] msgs[
                j
            ]).block_height,
        forall|i: int|
            0 <= i < msgs.len() ==> (cursor_of(s) is Some ==> (#[trigger] msgs[i]).block_height
                >= cursor_of(s)->Some_0),
    ensures
        cursor_of(spec_run(s, msgs)) is Some ==> (cursor_of(s) is Some ==> cursor_of(
            spec_run(s, msgs),
        )->Some_0 >= cursor_of(s)->Some_0),
    decreases msgs.len(),
{
    if msgs.len() > 0 {
        let s1 = spec_handle(s, msgs[0]);
        lemma_handle_cursor(s, msgs[0]);
        assert forall|i: int|
            0 <= i < msgs.skip(1).len() implies (cursor_of(s1) is Some ==> (#[trigger] msgs.skip(
            1,
        )[i]).block_height >= cursor_of(s1)->Some_0) by {
            assert(msgs.skip(1)[i] == msgs[i + 1]);
            assert(msgs[i + 1].block_height >= msgs[0].block_height);
        }
        lemma_cursor_monotone(s1, msgs.skip(1));
    }
}

/// Determinism: two runs over the same stream prefix from the same state
/// end in the same assembly state, the same stored records, and the same
/// cursor.
pub proof fn lemma_runs_agree(s: SpecIndexer, prefix: Seq<SpecBlock>, a: SpecIndexer, b: SpecIndexer)
    requires
        a == spec_run(s, prefix),
        b == spec_run(s, prefix),
    ensures
        a == b,
{
}

} // verus!
