//! The assembly engine: one call per block message. Transactions are
//! started, receipts and outcomes are routed through the watch list, and a
//! single sweep freezes every record whose outcome chain concluded and
//! evicts records older than the retention ceiling. The whole step is
//! pinned to a spec-level fold, so two runs over the same prefix agree.

use vstd::prelude::*;
use crate::primitives::{
    CryptoHash,
    TransactionKey,
    IndexerTransactionWithOutcome,
    SpecIndexerTransaction,
    ReceiptView,
    SpecReceiptView,
    ExecutionOutcomeWithIdView,
    SpecOutcomeWithId,
    TransactionDetails,
    SpecTransactionDetails,
    spec_final_status,
    spec_is_definitive,
    spec_freeze,
    FinalExecutionStatus,
};
use crate::storage::{
    HashStorage,
    SpecHashStorage,
    WatchedReceipt,
    hs_wf,
    w_find,
    t_find,
    t_put,
    t_remove,
    t_attach_receipt,
    t_attach_outcome,
    w_register_all,
    w_remove_key,
    w_drain_key,
    fresh_collecting,
    t_unique,
};

verus! {

/// One shard-chunk of a block: its ordered transactions, receipts and
/// execution outcomes.
#[derive(Clone, PartialEq, Debug)]
pub struct IndexedShard {
    pub shard_id: u64,
    pub transactions: Vec<IndexerTransactionWithOutcome>,
    pub receipts: Vec<ReceiptView>,
    pub execution_outcomes: Vec<ExecutionOutcomeWithIdView>,
}

#[verifier::ext_equal]
pub ghost struct SpecShard {
    pub shard_id: u64,
    pub transactions: Seq<SpecIndexerTransaction>,
    pub receipts: Seq<SpecReceiptView>,
    pub execution_outcomes: Seq<SpecOutcomeWithId>,
}

impl View for IndexedShard {
    type V = SpecShard;

    open spec fn view(&self) -> SpecShard {
        SpecShard {
            shard_id: self.shard_id,
            transactions: self.transactions@.map_values(|t: IndexerTransactionWithOutcome| t@),
            receipts: crate::primitives::view_receipts(self.receipts@),
            execution_outcomes: crate::primitives::view_outcomes(self.execution_outcomes@),
        }
    }
}

/// One block message from the stream.
#[derive(Clone, PartialEq, Debug)]
pub struct BlockMessage {
    pub block_height: u64,
    pub block_hash: CryptoHash,
    pub shards: Vec<IndexedShard>,
}

#[verifier::ext_equal]
pub ghost struct SpecBlock {
    pub block_height: u64,
    pub block_hash: CryptoHash,
    pub shards: Seq<SpecShard>,
}

impl View for BlockMessage {
    type V = SpecBlock;

    open spec fn view(&self) -> SpecBlock {
        SpecBlock {
            block_height: self.block_height,
            block_hash: self.block_hash,
            shards: self.shards@.map_values(|s: IndexedShard| s@),
        }
    }
}

/// A block message is well formed when every indexed transaction carries
/// its own outcome: the outcome resolves the transaction's hash.
pub open spec fn spec_block_wf(b: SpecBlock) -> bool {
    forall|i: int, j: int|
        0 <= i < b.shards.len() && 0 <= j < b.shards[i].transactions.len()
            ==> (#[trigger] b.shards[i].transactions[j]).outcome.id
            == b.shards[i].transactions[j].transaction.hash
}

/// Checks `spec_block_wf`; a block failing it is skipped as malformed.
pub fn block_well_formed(msg: &BlockMessage) -> (r: bool)
    ensures
        r == spec_block_wf(msg@),
{
    let mut i: usize = 0;
    while i < msg.shards.len()
        invariant
            i <= msg.shards@.len(),
            forall|a: int, j: int|
                0 <= a < i && 0 <= j < msg@.shards[a].transactions.len()
                    ==> (#[trigger] msg@.shards[a].transactions[j]).outcome.id
                    == msg@.shards[a].transactions[j].transaction.hash,
        decreases msg.shards@.len() - i,
    {
        let shard = &msg.shards[i];
        let mut j: usize = 0;
        while j < shard.transactions.len()
            invariant
                j <= shard.transactions@.len(),
                i < msg.shards@.len(),
                shard@ == msg@.shards[i as int],
                forall|jj: int|
                    0 <= jj < j ==> (#[trigger] shard@.transactions[jj]).outcome.id
                        == shard@.transactions[jj].transaction.hash,
            decreases shard.transactions@.len() - j,
        {
            if !(shard.transactions[j].outcome.id == shard.transactions[j].transaction.hash) {
                proof {
                    let ii = i as int;
                    let jj = j as int;
                    assert(0 <= ii < msg@.shards.len());
                    assert(msg@.shards[ii].transactions.len() == shard@.transactions.len());
                    assert(0 <= jj < msg@.shards[ii].transactions.len());
                    assert(shard.transactions@[jj].outcome.id
                        != shard.transactions@[jj].transaction.hash);
                    assert(shard@.transactions[jj] == shard.transactions@[jj]@);
                    assert(msg@.shards[ii].transactions[jj].outcome.id
                        != msg@.shards[ii].transactions[jj].transaction.hash);
                    assert(!spec_block_wf(msg@));
                }
                return false;
            }
            j = j + 1;
        }
        proof {
            assert forall|jj: int|
                0 <= jj < msg@.shards[i as int].transactions.len() implies (#[trigger] msg@.shards[
                i as int
            ].transactions[jj]).outcome.id == msg@.shards[i as int].transactions[jj].transaction.hash by {
                assert(shard@.transactions[jj].outcome.id
                    == shard@.transactions[jj].transaction.hash);
            }
        }
        i = i + 1;
    }
    true
}

// ---------------------------------------------------------------------------
// The spec-level fold the engine is pinned to.
// ---------------------------------------------------------------------------

/// Starting one indexed transaction.
pub open spec fn s_start_one(
    st: SpecHashStorage,
    t: SpecIndexerTransaction,
    h: u64,
    sid: u64,
) -> SpecHashStorage {
    let key = TransactionKey { transaction_hash: t.transaction.hash, block_height: h };
    SpecHashStorage {
        txs: t_put(st.txs, key, fresh_collecting(t, h)),
        watch: w_register_all(st.watch, t.outcome.outcome.receipt_ids, key, h, sid),
    }
}

pub open spec fn s_start_txs(
    st: SpecHashStorage,
    ts: Seq<SpecIndexerTransaction>,
    h: u64,
    sid: u64,
) -> SpecHashStorage
    decreases ts.len(),
{
    if ts.len() == 0 {
        st
    } else {
        s_start_txs(s_start_one(st, ts[0], h, sid), ts.skip(1), h, sid)
    }
}

pub open spec fn s_start_shards(st: SpecHashStorage, shards: Seq<SpecShard>, h: u64) -> SpecHashStorage
    decreases shards.len(),
{
    if shards.len() == 0 {
        st
    } else {
        s_start_shards(s_start_txs(st, shards[0].transactions, h, shards[0].shard_id), shards.skip(1), h)
    }
}

/// Routing one receipt view: attached when its id is watched, dropped
/// otherwise.
pub open spec fn s_receipt_one(st: SpecHashStorage, r: SpecReceiptView) -> SpecHashStorage {
    match w_find(st.watch, r.receipt_id) {
        Some(e) => SpecHashStorage { txs: t_attach_receipt(st.txs, e.key, r), watch: st.watch },
        None => st,
    }
}

pub open spec fn s_receipts(st: SpecHashStorage, rs: Seq<SpecReceiptView>) -> SpecHashStorage
    decreases rs.len(),
{
    if rs.len() == 0 {
        st
    } else {
        s_receipts(s_receipt_one(st, rs[0]), rs.skip(1))
    }
}

pub open spec fn s_receipt_shards(st: SpecHashStorage, shards: Seq<SpecShard>) -> SpecHashStorage
    decreases shards.len(),
{
    if shards.len() == 0 {
        st
    } else {
        s_receipt_shards(s_receipts(st, shards[0].receipts), shards.skip(1))
    }
}

/// Routing one execution outcome: attached when the hash it resolves is
/// watched; its spawned receipt ids are then watched under the same key.
pub open spec fn s_outcome_one(
    st: SpecHashStorage,
    o: SpecOutcomeWithId,
    h: u64,
    sid: u64,
) -> SpecHashStorage {
    match w_find(st.watch, o.id) {
        Some(e) => SpecHashStorage {
            txs: t_attach_outcome(st.txs, e.key, o),
            watch: w_register_all(st.watch, o.outcome.receipt_ids, e.key, h, sid),
        },
        None => st,
    }
}

pub open spec fn s_outcomes(
    st: SpecHashStorage,
    os: Seq<SpecOutcomeWithId>,
    h: u64,
    sid: u64,
) -> SpecHashStorage
    decreases os.len(),
{
    if os.len() == 0 {
        st
    } else {
        s_outcomes(s_outcome_one(st, os[0], h, sid), os.skip(1), h, sid)
    }
}

pub open spec fn s_outcome_shards(st: SpecHashStorage, shards: Seq<SpecShard>, h: u64) -> SpecHashStorage
    decreases shards.len(),
{
    if shards.len() == 0 {
        st
    } else {
        s_outcome_shards(
            s_outcomes(st, shards[0].execution_outcomes, h, shards[0].shard_id),
            shards.skip(1),
            h,
        )
    }
}

/// The result of the sweep: the state, the frozen records, and the drained
/// watch entries that become reverse-index rows.
#[verifier::ext_equal]
pub ghost struct SpecSweep {
    pub st: SpecHashStorage,
    pub finalized: Seq<(TransactionKey, SpecTransactionDetails)>,
    pub records: Seq<WatchedReceipt>,
    pub abandoned: int,
}

/// One sweep step over a snapshot key. A record whose walk reached an
/// executed leaf is frozen, persisted and dropped from the state together
/// with its watch entries; otherwise, a record older than the cutoff is
/// evicted and counted, its watch entries dropped and nothing persisted.
pub open spec fn s_sweep_one(acc: SpecSweep, k: TransactionKey, cutoff: u64) -> SpecSweep {
    match t_find(acc.st.txs, k) {
        Some(c) => {
            let fs = spec_final_status(c);
            if fs is Some && spec_is_definitive(fs->Some_0) {
                SpecSweep {
                    st: SpecHashStorage {
                        txs: t_remove(acc.st.txs, k),
                        watch: w_remove_key(acc.st.watch, k),
                    },
                    finalized: acc.finalized.push((k, spec_freeze(c))),
                    records: acc.records + w_drain_key(acc.st.watch, k),
                    abandoned: acc.abandoned,
                }
            } else if k.block_height < cutoff {
                SpecSweep {
                    st: SpecHashStorage {
                        txs: t_remove(acc.st.txs, k),
                        watch: w_remove_key(acc.st.watch, k),
                    },
                    finalized: acc.finalized,
                    records: acc.records,
                    abandoned: acc.abandoned + 1,
                }
            } else {
                acc
            }
        },
        None => acc,
    }
}

pub open spec fn s_sweep(acc: SpecSweep, keys: Seq<TransactionKey>, cutoff: u64) -> SpecSweep
    decreases keys.len(),
{
    if keys.len() == 0 {
        acc
    } else {
        s_sweep(s_sweep_one(acc, keys[0], cutoff), keys.skip(1), cutoff)
    }
}

/// The keys of the cache, in cache order.
pub open spec fn keys_of(txs: Seq<(TransactionKey, crate::primitives::SpecCollecting)>) -> Seq<
    TransactionKey,
> {
    txs.map_values(|e: (TransactionKey, crate::primitives::SpecCollecting)| e.0)
}

/// The state after the blocks steps one to three.
pub open spec fn spec_routed(st: SpecHashStorage, b: SpecBlock) -> SpecHashStorage {
    s_outcome_shards(
        s_receipt_shards(s_start_shards(st, b.shards, b.block_height), b.shards),
        b.shards,
        b.block_height,
    )
}

/// The whole per-block step: route, then sweep with the retention cutoff.
pub open spec fn spec_process_block(st: SpecHashStorage, b: SpecBlock, cutoff: u64) -> SpecSweep {
    let routed = spec_routed(st, b);
    s_sweep(
        SpecSweep { st: routed, finalized: Seq::empty(), records: Seq::empty(), abandoned: 0 },
        keys_of(routed.txs),
        cutoff,
    )
}

// Fold push lemmas: forward loops consume the head-first folds.

pub proof fn lemma_s_start_txs_push(
    st: SpecHashStorage,
    ts: Seq<SpecIndexerTransaction>,
    x: SpecIndexerTransaction,
    h: u64,
    sid: u64,
)
    ensures
        s_start_txs(st, ts.push(x), h, sid) == s_start_one(s_start_txs(st, ts, h, sid), x, h, sid),
    decreases ts.len(),
{
    reveal_with_fuel(s_start_txs, 3);
    if ts.len() == 0 {
        assert(ts.push(x)[0] == x);
        assert(ts.push(x).skip(1) =~= Seq::<SpecIndexerTransaction>::empty());
    } else {
        assert(ts.push(x)[0] == ts[0]);
        assert(ts.push(x).skip(1) =~= ts.skip(1).push(x));
        lemma_s_start_txs_push(s_start_one(st, ts[0], h, sid), ts.skip(1), x, h, sid);
    }
}

pub proof fn lemma_s_start_shards_push(st: SpecHashStorage, shards: Seq<SpecShard>, x: SpecShard, h: u64)
    ensures
        s_start_shards(st, shards.push(x), h) == s_start_txs(
            s_start_shards(st, shards, h),
            x.transactions,
            h,
            x.shard_id,
        ),
    decreases shards.len(),
{
    reveal_with_fuel(s_start_shards, 3);
    if shards.len() == 0 {
        assert(shards.push(x)[0] == x);
        assert(shards.push(x).skip(1) =~= Seq::<SpecShard>::empty());
    } else {
        assert(shards.push(x)[0] == shards[0]);
        assert(shards.push(x).skip(1) =~= shards.skip(1).push(x));
        lemma_s_start_shards_push(
            s_start_txs(st, shards[0].transactions, h, shards[0].shard_id),
            shards.skip(1),
            x,
            h,
        );
    }
}

pub proof fn lemma_s_receipts_push(st: SpecHashStorage, rs: Seq<SpecReceiptView>, x: SpecReceiptView)
    ensures
        s_receipts(st, rs.push(x)) == s_receipt_one(s_receipts(st, rs), x),
    decreases rs.len(),
{
    reveal_with_fuel(s_receipts, 3);
    if rs.len() == 0 {
        assert(rs.push(x)[0] == x);
        assert(rs.push(x).skip(1) =~= Seq::<SpecReceiptView>::empty());
    } else {
        assert(rs.push(x)[0] == rs[0]);
        assert(rs.push(x).skip(1) =~= rs.skip(1).push(x));
        lemma_s_receipts_push(s_receipt_one(st, rs[0]), rs.skip(1), x);
    }
}

pub proof fn lemma_s_receipt_shards_push(st: SpecHashStorage, shards: Seq<SpecShard>, x: SpecShard)
    ensures
        s_receipt_shards(st, shards.push(x)) == s_receipts(s_receipt_shards(st, shards), x.receipts),
    decreases shards.len(),
{
    reveal_with_fuel(s_receipt_shards, 3);
    if shards.len() == 0 {
        assert(shards.push(x)[0] == x);
        assert(shards.push(x).skip(1) =~= Seq::<SpecShard>::empty());
    } else {
        assert(shards.push(x)[0] == shards[0]);
        assert(shards.push(x).skip(1) =~= shards.skip(1).push(x));
        lemma_s_receipt_shards_push(s_receipts(st, shards[0].receipts), shards.skip(1), x);
    }
}

pub proof fn lemma_s_outcomes_push(
    st: SpecHashStorage,
    os: Seq<SpecOutcomeWithId>,
    x: SpecOutcomeWithId,
    h: u64,
    sid: u64,
)
    ensures
        s_outcomes(st, os.push(x), h, sid) == s_outcome_one(s_outcomes(st, os, h, sid), x, h, sid),
    decreases os.len(),
{
    reveal_with_fuel(s_outcomes, 3);
    if os.len() == 0 {
        assert(os.push(x)[0] == x);
        assert(os.push(x).skip(1) =~= Seq::<SpecOutcomeWithId>::empty());
    } else {
        assert(os.push(x)[0] == os[0]);
        assert(os.push(x).skip(1) =~= os.skip(1).push(x));
        lemma_s_outcomes_push(s_outcome_one(st, os[0], h, sid), os.skip(1), x, h, sid);
    }
}

pub proof fn lemma_s_outcome_shards_push(
    st: SpecHashStorage,
    shards: Seq<SpecShard>,
    x: SpecShard,
    h: u64,
)
    ensures
        s_outcome_shards(st, shards.push(x), h) == s_outcomes(
            s_outcome_shards(st, shards, h),
            x.execution_outcomes,
            h,
            x.shard_id,
        ),
    decreases shards.len(),
{
    reveal_with_fuel(s_outcome_shards, 3);
    if shards.len() == 0 {
        assert(shards.push(x)[0] == x);
        assert(shards.push(x).skip(1) =~= Seq::<SpecShard>::empty());
    } else {
        assert(shards.push(x)[0] == shards[0]);
        assert(shards.push(x).skip(1) =~= shards.skip(1).push(x));
        lemma_s_outcome_shards_push(
            s_outcomes(st, shards[0].execution_outcomes, h, shards[0].shard_id),
            shards.skip(1),
            x,
            h,
        );
    }
}

/// What a processed block hands to the storage adapter: the frozen
/// records, the reverse-index rows, and the counters.
#[derive(Clone, PartialEq, Debug)]
pub struct BlockEffects {
    pub finalized: Vec<(TransactionKey, TransactionDetails)>,
    pub receipt_rows: Vec<WatchedReceipt>,
    pub orphan_receipts: u64,
    pub orphan_outcomes: u64,
    pub abandoned: u64,
}

pub open spec fn view_tds(s: Seq<(TransactionKey, TransactionDetails)>) -> Seq<
    (TransactionKey, SpecTransactionDetails),
> {
    s.map_values(|d: (TransactionKey, TransactionDetails)| (d.0, d.1@))
}

/// Every receipt of every frozen record has a reverse-index row whose
/// parent transaction hash is the record's transaction hash.
/// Some row resolves `id` to the parent transaction hash `h`.
pub open spec fn row_covers(rows: Seq<WatchedReceipt>, id: CryptoHash, h: CryptoHash) -> bool {
    exists|m: int|
        #![trigger rows[m]]
        0 <= m < rows.len() && rows[m].receipt_id == id && rows[m].key.transaction_hash == h
}

pub open spec fn p3_covered(
    fins: Seq<(TransactionKey, SpecTransactionDetails)>,
    rows: Seq<WatchedReceipt>,
) -> bool {
    forall|i: int, j: int|
        #![trigger fins[i].1.receipts[j]]
        0 <= i < fins.len() && 0 <= j < fins[i].1.receipts.len() ==> row_covers(
            rows,
            fins[i].1.receipts[j].receipt_id,
            fins[i].1.transaction.hash,
        )
}

/// Every frozen record carries a definitive status: the walk ended in a
/// failure or a success value.
pub open spec fn all_definitive(fins: Seq<(TransactionKey, SpecTransactionDetails)>) -> bool {
    forall|i: int| 0 <= i < fins.len() ==> spec_is_definitive((#[trigger] fins[i]).1.status)
}

fn clone_itx(t: &IndexerTransactionWithOutcome) -> (r: IndexerTransactionWithOutcome)
    ensures
        r@ == t@,
{
    IndexerTransactionWithOutcome {
        transaction: crate::primitives::clone_transaction(&t.transaction),
        outcome: crate::primitives::clone_outcome(&t.outcome),
    }
}

fn bump(c: u64) -> (r: u64)
    ensures
        r == if c < u64::MAX { (c + 1) as u64 } else { c },
{
    if c < u64::MAX {
        c + 1
    } else {
        c
    }
}

/// Processes one block message, in the strict order: transactions, then
/// receipts, then execution outcomes, then the finalization and retention
/// sweep. The new state and the effects equal the spec-level fold, so two
/// runs over the same inputs produce the same records.
pub fn process_block(state: &mut HashStorage, msg: &BlockMessage, cutoff: u64) -> (effects:
    BlockEffects)
    requires
        hs_wf(old(state)@),
        spec_block_wf(msg@),
    ensures
        hs_wf(final(state)@),
        final(state)@ == spec_process_block(old(state)@, msg@, cutoff).st,
        view_tds(effects.finalized@) == spec_process_block(old(state)@, msg@, cutoff).finalized,
        effects.receipt_rows@ == spec_process_block(old(state)@, msg@, cutoff).records,
        all_definitive(view_tds(effects.finalized@)),
        p3_covered(view_tds(effects.finalized@), effects.receipt_rows@),
{
    let ghost st0 = state@;
    let ghost b = msg@;
    let h = msg.block_height;

    // Step 1: transactions.
    let mut i: usize = 0;
    proof {
        assert(b.shards.take(0) =~= Seq::<SpecShard>::empty());
    }
    while i < msg.shards.len()
        invariant
            i <= msg.shards@.len(),
            hs_wf(state@),
            h == b.block_height,
            b == msg@,
            spec_block_wf(b),
            state@ == s_start_shards(st0, b.shards.take(i as int), h),
        decreases msg.shards@.len() - i,
    {
        let ghost shard_start = state@;
        let shard = &msg.shards[i];
        let mut j: usize = 0;
        proof {
            assert(shard@.transactions.take(0) =~= Seq::<SpecIndexerTransaction>::empty());
        }
        while j < shard.transactions.len()
            invariant
                j <= shard.transactions@.len(),
                i < msg.shards@.len(),
                hs_wf(state@),
                b == msg@,
                spec_block_wf(b),
                h == b.block_height,
                shard@ == b.shards[i as int],
                state@ == s_start_txs(shard_start, shard@.transactions.take(j as int), h, shard@.shard_id),
            decreases shard.transactions@.len() - j,
        {
            let t = clone_itx(&shard.transactions[j]);
            proof {
                assert(shard@.transactions[j as int] == shard.transactions@[j as int]@);
                assert(t@.outcome.id == t@.transaction.hash);
            }
            let ghost before = state@;
            state.start_transaction(t, h, shard.shard_id);
            proof {
                assert(state@ =~= s_start_one(before, shard@.transactions[j as int], h, shard@.shard_id));
                lemma_s_start_txs_push(
                    shard_start,
                    shard@.transactions.take(j as int),
                    shard@.transactions[j as int],
                    h,
                    shard@.shard_id,
                );
                assert(shard@.transactions.take(j + 1) =~= shard@.transactions.take(
                    j as int,
                ).push(shard@.transactions[j as int]));
            }
            j = j + 1;
        }
        proof {
            assert(shard@.transactions.take(shard@.transactions.len() as int)
                =~= shard@.transactions);
            lemma_s_start_shards_push(st0, b.shards.take(i as int), b.shards[i as int], h);
            assert(b.shards.take(i + 1) =~= b.shards.take(i as int).push(b.shards[i as int]));
        }
        i = i + 1;
    }
    proof {
        assert(b.shards.take(b.shards.len() as int) =~= b.shards);
    }
    let ghost st1 = state@;

    // Step 2: receipts.
    let mut orphan_receipts: u64 = 0;
    let mut i2: usize = 0;
    proof {
        assert(b.shards.take(0) =~= Seq::<SpecShard>::empty());
    }
    while i2 < msg.shards.len()
        invariant
            i2 <= msg.shards@.len(),
            hs_wf(state@),
            b == msg@,
            state@ == s_receipt_shards(st1, b.shards.take(i2 as int)),
        decreases msg.shards@.len() - i2,
    {
        let ghost shard_start = state@;
        let shard = &msg.shards[i2];
        let mut j: usize = 0;
        proof {
            assert(shard@.receipts.take(0) =~= Seq::<SpecReceiptView>::empty());
        }
        while j < shard.receipts.len()
            invariant
                j <= shard.receipts@.len(),
                i2 < msg.shards@.len(),
                hs_wf(state@),
                b == msg@,
                shard@ == b.shards[i2 as int],
                state@ == s_receipts(shard_start, shard@.receipts.take(j as int)),
            decreases shard.receipts@.len() - j,
        {
            let r = crate::primitives::clone_receipt(&shard.receipts[j]);
            proof {
                assert(shard@.receipts[j as int] == shard.receipts@[j as int]@);
            }
            let ghost before = state@;
            match state.find_watched(r.receipt_id) {
                Some(e) => {
                    state.push_receipt(e.key, r);
                    proof {
                        assert(state@ =~= s_receipt_one(before, shard@.receipts[j as int]));
                    }
                },
                None => {
                    orphan_receipts = bump(orphan_receipts);
                    proof {
                        assert(state@ =~= s_receipt_one(before, shard@.receipts[j as int]));
                    }
                },
            }
            proof {
                lemma_s_receipts_push(
                    shard_start,
                    shard@.receipts.take(j as int),
                    shard@.receipts[j as int],
                );
                assert(shard@.receipts.take(j + 1) =~= shard@.receipts.take(j as int).push(
                    shard@.receipts[j as int],
                ));
            }
            j = j + 1;
        }
        proof {
            assert(shard@.receipts.take(shard@.receipts.len() as int) =~= shard@.receipts);
            lemma_s_receipt_shards_push(st1, b.shards.take(i2 as int), b.shards[i2 as int]);
            assert(b.shards.take(i2 + 1) =~= b.shards.take(i2 as int).push(b.shards[i2 as int]));
        }
        i2 = i2 + 1;
    }
    proof {
        assert(b.shards.take(b.shards.len() as int) =~= b.shards);
    }
    let ghost st2 = state@;

    // Step 3: execution outcomes.
    let mut orphan_outcomes: u64 = 0;
    let mut i3: usize = 0;
    proof {
        assert(b.shards.take(0) =~= Seq::<SpecShard>::empty());
    }
    while i3 < msg.shards.len()
        invariant
            i3 <= msg.shards@.len(),
            hs_wf(state@),
            b == msg@,
            h == b.block_height,
            state@ == s_outcome_shards(st2, b.shards.take(i3 as int), h),
        decreases msg.shards@.len() - i3,
    {
        let ghost shard_start = state@;
        let shard = &msg.shards[i3];
        let mut j: usize = 0;
        proof {
            assert(shard@.execution_outcomes.take(0) =~= Seq::<SpecOutcomeWithId>::empty());
        }
        while j < shard.execution_outcomes.len()
            invariant
                j <= shard.execution_outcomes@.len(),
                i3 < msg.shards@.len(),
                hs_wf(state@),
                b == msg@,
                h == b.block_height,
                shard@ == b.shards[i3 as int],
                state@ == s_outcomes(
                    shard_start,
                    shard@.execution_outcomes.take(j as int),
                    h,
                    shard@.shard_id,
                ),
            decreases shard.execution_outcomes@.len() - j,
        {
            let o = crate::primitives::clone_outcome(&shard.execution_outcomes[j]);
            proof {
                assert(shard@.execution_outcomes[j as int] == shard.execution_outcomes@[j as int]@);
            }
            let ghost before = state@;
            match state.find_watched(o.id) {
                Some(e) => {
                    proof {
                        crate::storage::lemma_w_find_is_elem(before.watch, o@.id);
                        let m = choose|m: int|
                            0 <= m < before.watch.len() && before.watch[m] == w_find(
                                before.watch,
                                o@.id,
                            )->Some_0 && before.watch[m].receipt_id == o@.id;
                        assert(t_find(before.txs, before.watch[m].key) is Some);
                    }
                    state.push_outcome(e.key, o, h, shard.shard_id);
                    proof {
                        assert(state@ =~= s_outcome_one(
                            before,
                            shard@.execution_outcomes[j as int],
                            h,
                            shard@.shard_id,
                        ));
                    }
                },
                None => {
                    orphan_outcomes = bump(orphan_outcomes);
                    proof {
                        assert(state@ =~= s_outcome_one(
                            before,
                            shard@.execution_outcomes[j as int],
                            h,
                            shard@.shard_id,
                        ));
                    }
                },
            }
            proof {
                lemma_s_outcomes_push(
                    shard_start,
                    shard@.execution_outcomes.take(j as int),
                    shard@.execution_outcomes[j as int],
                    h,
                    shard@.shard_id,
                );
                assert(shard@.execution_outcomes.take(j + 1) =~= shard@.execution_outcomes.take(
                    j as int,
                ).push(shard@.execution_outcomes[j as int]));
            }
            j = j + 1;
        }
        proof {
            assert(shard@.execution_outcomes.take(shard@.execution_outcomes.len() as int)
                =~= shard@.execution_outcomes);
            lemma_s_outcome_shards_push(st2, b.shards.take(i3 as int), b.shards[i3 as int], h);
            assert(b.shards.take(i3 + 1) =~= b.shards.take(i3 as int).push(b.shards[i3 as int]));
        }
        i3 = i3 + 1;
    }
    proof {
        assert(b.shards.take(b.shards.len() as int) =~= b.shards);
        assert(state@ == spec_routed(st0, b));
    }
    let ghost routed = state@;

    // Step 4: finalization sweep with the retention cutoff.
    let mut keys: Vec<TransactionKey> = Vec::new();
    let mut ki: usize = 0;
    while ki < state.transactions.len()
        invariant
            ki <= state.transactions@.len(),
            state@ == routed,
            keys@.len() == ki,
            forall|a: int| 0 <= a < ki ==> keys@[a] == routed.txs[a].0,
        decreases state.transactions@.len() - ki,
    {
        keys.push(state.transactions[ki].key);
        ki = ki + 1;
    }
    proof {
        assert(keys@ =~= keys_of(routed.txs));
    }
    let ghost acc0 = SpecSweep {
        st: routed,
        finalized: Seq::empty(),
        records: Seq::empty(),
        abandoned: 0,
    };
    let mut finalized: Vec<(TransactionKey, TransactionDetails)> = Vec::new();
    let mut receipt_rows: Vec<WatchedReceipt> = Vec::new();
    let mut abandoned: u64 = 0;
    let ghost mut acc = acc0;
    let mut s: usize = 0;
    proof {
        assert(keys@.take(0) =~= Seq::<TransactionKey>::empty());
        assert(view_tds(finalized@) =~= acc.finalized);
        assert(receipt_rows@ =~= acc.records);
    }
    while s < keys.len()
        invariant
            s <= keys@.len(),
            hs_wf(state@),
            acc == s_sweep(acc0, keys@.take(s as int), cutoff),
            state@ == acc.st,
            view_tds(finalized@) == acc.finalized,
            receipt_rows@ == acc.records,
            abandoned == acc.abandoned,
            acc.abandoned <= s,
            all_definitive(acc.finalized),
            p3_covered(acc.finalized, acc.records),
        decreases keys@.len() - s,
    {
        let k = keys[s];
        let ghost before = state@;
        let ghost step = s_sweep_one(acc, k, cutoff);
        proof {
            lemma_s_sweep_push(acc0, keys@.take(s as int), keys@[s as int], cutoff);
            assert(keys@.take(s + 1) =~= keys@.take(s as int).push(keys@[s as int]));
        }
        let frozen = match state.get_collecting(&k) {
            Some(c) => Some(c.to_final_transaction_result()),
            None => None,
        };
        match frozen {
            Some(Ok(d)) => {
                let definitive = match &d.status {
                    FinalExecutionStatus::Failure(_) => true,
                    FinalExecutionStatus::SuccessValue(_) => true,
                    FinalExecutionStatus::NotStarted => false,
                    FinalExecutionStatus::Started => false,
                };
                if definitive {
                    let ghost c = t_find(before.txs, k)->Some_0;
                    let mut drained = state.remove_transaction(k);
                    let ghost drained_seq = drained@;
                    proof {
                        // Every receipt of the frozen record is covered by
                        // the drained reverse-index rows.
                        crate::storage::lemma_t_find_is_elem(before.txs, k);
                        let ti = choose|ti: int|
                            0 <= ti < before.txs.len() && before.txs[ti] == (k, c);
                        crate::storage::lemma_w_remove_props(before.watch, k);
                        assert forall|j: int|
                            #![trigger d@.receipts[j]]
                            0 <= j < d@.receipts.len() implies exists|m: int|
                            #![trigger drained_seq[m]]
                            0 <= m < drained_seq.len() && drained_seq[m].receipt_id
                                == d@.receipts[j].receipt_id
                                && drained_seq[m].key.transaction_hash == d@.transaction.hash by {
                            assert(before.txs[ti].1.receipts[j] == d@.receipts[j]);
                            let e = w_find(before.watch, c.receipts[j].receipt_id)->Some_0;
                            assert(e.key == k);
                            crate::storage::lemma_w_find_is_elem(
                                before.watch,
                                c.receipts[j].receipt_id,
                            );
                            let wm = choose|wm: int|
                                0 <= wm < before.watch.len() && before.watch[wm] == e
                                    && before.watch[wm].receipt_id == c.receipts[j].receipt_id;
                            assert(w_drain_key(before.watch, k).contains(before.watch[wm]));
                            let m = choose|m: int|
                                0 <= m < drained_seq.len() && drained_seq[m] == before.watch[wm];
                        }
                        assert(step.st == state@);
                    }
                    let ghost rows_before = receipt_rows@;
                    let ghost fins_before = view_tds(finalized@);
                    finalized.push((k, d));
                    receipt_rows.append(&mut drained);
                    proof {
                        assert(view_tds(finalized@) =~= fins_before.push(
                            (k, spec_freeze(c)),
                        ));
                        assert(view_tds(finalized@) == step.finalized);
                        assert(receipt_rows@ == step.records);
                        assert(all_definitive(step.finalized));
                        assert forall|ii: int, jj: int|
                            #![trigger step.finalized[ii].1.receipts[jj]]
                            0 <= ii < step.finalized.len() && 0 <= jj < step.finalized[
                            ii
                        ].1.receipts.len() implies row_covers(
                            receipt_rows@,
                            step.finalized[ii].1.receipts[jj].receipt_id,
                            step.finalized[ii].1.transaction.hash,
                        ) by {
                            if ii < fins_before.len() {
                                assert(step.finalized[ii] == acc.finalized[ii]);
                                assert(step.finalized[ii].1.receipts[jj] == acc.finalized[
                                    ii
                                ].1.receipts[jj]);
                                let m = choose|m: int|
                                    0 <= m < acc.records.len() && (#[trigger] acc.records[
                                    m
                                ]).receipt_id == acc.finalized[ii].1.receipts[jj].receipt_id
                                        && acc.records[m].key.transaction_hash == acc.finalized[
                                    ii
                                ].1.transaction.hash;
                                assert(receipt_rows@[m] == acc.records[m]);
                                assert(receipt_rows@[m].receipt_id == step.finalized[
                                    ii
                                ].1.receipts[jj].receipt_id && receipt_rows@[
                                    m
                                ].key.transaction_hash == step.finalized[ii].1.transaction.hash);
                            } else {
                                assert(step.finalized[ii] == (k, spec_freeze(c)));
                                assert(spec_freeze(c).receipts == d@.receipts);
                                assert(step.finalized[ii].1.receipts[jj] == d@.receipts[jj]);
                                let m = choose|m: int|
                                    0 <= m < drained_seq.len() && (#[trigger] drained_seq[
                                    m
                                ]).receipt_id == d@.receipts[jj].receipt_id && drained_seq[
                                    m
                                ].key.transaction_hash == d@.transaction.hash;
                                assert(receipt_rows@[rows_before.len() + m] == drained_seq[m]);
                                assert(receipt_rows@[rows_before.len() + m].receipt_id
                                    == step.finalized[ii].1.receipts[jj].receipt_id
                                    && receipt_rows@[
                                    rows_before.len() + m
                                ].key.transaction_hash == step.finalized[ii].1.transaction.hash);
                            }
                        }
                        assert(p3_covered(step.finalized, receipt_rows@));
                        acc = step;
                    }
                } else {
                    if k.block_height < cutoff {
                        let drained = state.remove_transaction(k);
                        abandoned = bump(abandoned);
                        proof {
                            assert(abandoned == acc.abandoned + 1);
                            assert(state@ == step.st);
                            acc = step;
                        }
                    } else {
                        proof {
                            assert(state@ == step.st);
                            acc = step;
                        }
                    }
                }
            },
            Some(Err(_)) => {
                if k.block_height < cutoff {
                    let drained = state.remove_transaction(k);
                    abandoned = bump(abandoned);
                    proof {
                        assert(abandoned == acc.abandoned + 1);
                        assert(state@ == step.st);
                        acc = step;
                    }
                } else {
                    proof {
                        assert(state@ == step.st);
                        acc = step;
                    }
                }
            },
            None => {
                proof {
                    assert(state@ == step.st);
                    acc = step;
                }
            },
        }
        s = s + 1;
    }
    proof {
        assert(keys@.take(keys@.len() as int) =~= keys@);
    }
    BlockEffects { finalized, receipt_rows, orphan_receipts, orphan_outcomes, abandoned }
}

/// The sweep only removes cache entries and only appends frozen records:
/// earlier output is kept, a key found afterwards was found before with
/// the same record, and a key absent before stays absent.
proof fn lemma_s_sweep_monotone(acc: SpecSweep, keys: Seq<TransactionKey>, cutoff: u64)
    requires
        t_unique(acc.st.txs),
    ensures
        t_unique(s_sweep(acc, keys, cutoff).st.txs),
        s_sweep(acc, keys, cutoff).finalized.len() >= acc.finalized.len(),
        forall|i: int|
            0 <= i < acc.finalized.len() ==> #[trigger] s_sweep(acc, keys, cutoff).finalized[i]
                == acc.finalized[i],
        forall|k: TransactionKey|
            #[trigger] t_find(s_sweep(acc, keys, cutoff).st.txs, k) is Some ==> t_find(
                s_sweep(acc, keys, cutoff).st.txs,
                k,
            ) == t_find(acc.st.txs, k),
    decreases keys.len(),
{
    if keys.len() > 0 {
        let step = s_sweep_one(acc, keys[0], cutoff);
        match t_find(acc.st.txs, keys[0]) {
            Some(c) => {
                if (spec_final_status(c) is Some && spec_is_definitive(
                    spec_final_status(c)->Some_0,
                )) || keys[0].block_height < cutoff {
                    crate::storage::lemma_t_remove_props(acc.st.txs, keys[0]);
                }
            },
            None => {},
        }
        lemma_s_sweep_monotone(step, keys.skip(1), cutoff);
    }
}

/// At-least-once, and exactly once, per sweep: every cache entry whose
/// walk reached an executed leaf is frozen into the output under its key;
/// no two output entries share a key; and every frozen key is gone from
/// the cache, so a record cannot be frozen again later.
pub proof fn lemma_sweep_exactly_once(acc: SpecSweep, keys: Seq<TransactionKey>, cutoff: u64)
    requires
        t_unique(acc.st.txs),
        forall|i: int, j: int| 0 <= i < j < keys.len() ==> keys[i] != keys[j],
        forall|i: int|
            0 <= i < acc.finalized.len() ==> t_find(
                acc.st.txs,
                (#[trigger] acc.finalized[i]).0,
            ) is None,
        forall|i: int, j: int|
            0 <= i < j < acc.finalized.len() ==> (#[trigger] acc.finalized[i]).0 != (
            #[trigger] acc.finalized[j]).0,
    ensures
        forall|m: int|
            0 <= m < keys.len() && t_find(acc.st.txs, #[trigger] keys[m]) is Some
                && spec_final_status(t_find(acc.st.txs, keys[m])->Some_0) is Some
                && spec_is_definitive(
                spec_final_status(t_find(acc.st.txs, keys[m])->Some_0)->Some_0,
            ) ==> exists|i: int|
                0 <= i < s_sweep(acc, keys, cutoff).finalized.len() && #[trigger] s_sweep(
                    acc,
                    keys,
                    cutoff,
                ).finalized[i] == (keys[m], spec_freeze(t_find(acc.st.txs, keys[m])->Some_0)),
        forall|i: int, j: int|
            0 <= i < j < s_sweep(acc, keys, cutoff).finalized.len() ==> (#[trigger] s_sweep(
                acc,
                keys,
                cutoff,
            ).finalized[i]).0 != (#[trigger] s_sweep(acc, keys, cutoff).finalized[j]).0,
        forall|i: int|
            0 <= i < s_sweep(acc, keys, cutoff).finalized.len() ==> t_find(
                s_sweep(acc, keys, cutoff).st.txs,
                (#[trigger] s_sweep(acc, keys, cutoff).finalized[i]).0,
            ) is None,
    decreases keys.len(),
{
    let r = s_sweep(acc, keys, cutoff);
    if keys.len() == 0 {
    } else {
        let k0 = keys[0];
        let step = s_sweep_one(acc, k0, cutoff);
        let removed = match t_find(acc.st.txs, k0) {
            Some(c) => (spec_final_status(c) is Some && spec_is_definitive(
                spec_final_status(c)->Some_0,
            )) || k0.block_height < cutoff,
            None => false,
        };
        if removed {
            crate::storage::lemma_t_remove_props(acc.st.txs, k0);
        }
        assert(t_unique(step.st.txs));
        assert forall|i: int|
            0 <= i < step.finalized.len() implies t_find(
            step.st.txs,
            (#[trigger] step.finalized[i]).0,
        ) is None by {
            if i < acc.finalized.len() {
                assert(step.finalized[i] == acc.finalized[i]);
            } else {
                assert(step.finalized[i].0 == k0);
            }
        }
        assert forall|i: int, j: int|
            0 <= i < j < step.finalized.len() implies (#[trigger] step.finalized[i]).0 != (
        #[trigger] step.finalized[j]).0 by {
            if j == acc.finalized.len() as int {
                assert(t_find(acc.st.txs, acc.finalized[i].0) is None);
                assert(step.finalized[j].0 == k0);
            }
        }
        assert(forall|i: int, j: int|
            0 <= i < j < keys.skip(1).len() ==> keys.skip(1)[i] != keys.skip(1)[j]);
        lemma_sweep_exactly_once(step, keys.skip(1), cutoff);
        lemma_s_sweep_monotone(step, keys.skip(1), cutoff);
        assert(r == s_sweep(step, keys.skip(1), cutoff));
        assert forall|m: int|
            0 <= m < keys.len() && t_find(acc.st.txs, #[trigger] keys[m]) is Some
                && spec_final_status(t_find(acc.st.txs, keys[m])->Some_0) is Some
                && spec_is_definitive(
                spec_final_status(t_find(acc.st.txs, keys[m])->Some_0)->Some_0,
            ) implies exists|i: int|
            0 <= i < r.finalized.len() && #[trigger] r.finalized[i] == (
                keys[m],
                spec_freeze(t_find(acc.st.txs, keys[m])->Some_0),
            ) by {
            if m == 0 {
                let i = acc.finalized.len() as int;
                assert(step.finalized[i] == (k0, spec_freeze(t_find(acc.st.txs, k0)->Some_0)));
                assert(r.finalized[i] == step.finalized[i]);
            } else {
                assert(keys.skip(1)[m - 1] == keys[m]);
                assert(keys[m] != k0);
                assert(t_find(step.st.txs, keys[m]) == t_find(acc.st.txs, keys[m]));
            }
        }
    }
}

pub proof fn lemma_s_sweep_push(acc: SpecSweep, keys: Seq<TransactionKey>, x: TransactionKey, cutoff: u64)
    ensures
        s_sweep(acc, keys.push(x), cutoff) == s_sweep_one(s_sweep(acc, keys, cutoff), x, cutoff),
    decreases keys.len(),
{
    reveal_with_fuel(s_sweep, 3);
    if keys.len() == 0 {
        assert(keys.push(x)[0] == x);
        assert(keys.push(x).skip(1) =~= Seq::<TransactionKey>::empty());
    } else {
        assert(keys.push(x)[0] == keys[0]);
        assert(keys.push(x).skip(1) =~= keys.skip(1).push(x));
        lemma_s_sweep_push(s_sweep_one(acc, keys[0], cutoff), keys.skip(1), x, cutoff);
    }
}

} // verus!
