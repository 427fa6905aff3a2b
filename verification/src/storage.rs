//! In-memory assembly state: the cache of partially assembled transactions
//! and the watch list that routes receipt ids back to the transaction that
//! spawned them. Both are association lists with unique keys; the well-
//! formedness invariant ties them together: every receipt attached to a
//! cached transaction is watched under that transaction's key, so the
//! reverse index drained at finalization covers every attached receipt.

use vstd::prelude::*;
use crate::primitives::{
    CryptoHash,
    TransactionKey,
    CollectingTransactionDetails,
    SpecCollecting,
    IndexerTransactionWithOutcome,
    SpecIndexerTransaction,
    ReceiptView,
    ExecutionOutcomeWithIdView,
    collecting_wf,
};

verus! {

/// One watched receipt id: the key of the transaction that spawned it, and
/// the block and shard in which it was spawned.
#[derive(Clone, Copy, PartialEq, Eq, Structural, Debug)]
pub struct WatchedReceipt {
    pub receipt_id: CryptoHash,
    pub key: TransactionKey,
    pub block_height: u64,
    pub shard_id: u64,
}

/// One cache entry: a transaction key and the record assembled so far.
#[derive(Clone, PartialEq, Debug)]
pub struct TxEntry {
    pub key: TransactionKey,
    pub tx: CollectingTransactionDetails,
}

#[verifier::ext_equal]
pub ghost struct SpecHashStorage {
    pub txs: Seq<(TransactionKey, SpecCollecting)>,
    pub watch: Seq<WatchedReceipt>,
}

/// The assembly state: transaction cache plus receipt watch list.
#[derive(Clone, PartialEq, Debug)]
pub struct HashStorage {
    pub transactions: Vec<TxEntry>,
    pub receipts_watching: Vec<WatchedReceipt>,
}

impl View for HashStorage {
    type V = SpecHashStorage;

    open spec fn view(&self) -> SpecHashStorage {
        SpecHashStorage {
            txs: self.transactions@.map_values(|e: TxEntry| (e.key, e.tx@)),
            watch: self.receipts_watching@,
        }
    }
}

// ---------------------------------------------------------------------------
// Association-list operations, as spec functions.
// ---------------------------------------------------------------------------

/// First watch entry for a receipt id, if any.
pub open spec fn w_find(w: Seq<WatchedReceipt>, id: CryptoHash) -> Option<WatchedReceipt>
    decreases w.len(),
{
    if w.len() == 0 {
        None
    } else if w[0].receipt_id == id {
        Some(w[0])
    } else {
        w_find(w.skip(1), id)
    }
}

/// First cache entry for a key, if any.
pub open spec fn t_find(
    txs: Seq<(TransactionKey, SpecCollecting)>,
    k: TransactionKey,
) -> Option<SpecCollecting>
    decreases txs.len(),
{
    if txs.len() == 0 {
        None
    } else if txs[0].0 == k {
        Some(txs[0].1)
    } else {
        t_find(txs.skip(1), k)
    }
}

/// Insert or replace the entry for a key, keeping the list order.
pub open spec fn t_put(
    txs: Seq<(TransactionKey, SpecCollecting)>,
    k: TransactionKey,
    c: SpecCollecting,
) -> Seq<(TransactionKey, SpecCollecting)>
    decreases txs.len(),
{
    if txs.len() == 0 {
        seq![(k, c)]
    } else if txs[0].0 == k {
        seq![(k, c)] + txs.skip(1)
    } else {
        seq![txs[0]] + t_put(txs.skip(1), k, c)
    }
}

/// Apply `f` to the entry for `k`, if present.
pub open spec fn t_modify(
    txs: Seq<(TransactionKey, SpecCollecting)>,
    k: TransactionKey,
    f: spec_fn(SpecCollecting) -> SpecCollecting,
) -> Seq<(TransactionKey, SpecCollecting)>
    decreases txs.len(),
{
    if txs.len() == 0 {
        txs
    } else if txs[0].0 == k {
        seq![(k, f(txs[0].1))] + txs.skip(1)
    } else {
        seq![txs[0]] + t_modify(txs.skip(1), k, f)
    }
}

/// Idempotent watch insert: a receipt id already watched keeps its first
/// binding.
pub open spec fn w_register(w: Seq<WatchedReceipt>, wr: WatchedReceipt) -> Seq<WatchedReceipt> {
    if w_find(w, wr.receipt_id) is Some {
        w
    } else {
        w.push(wr)
    }
}

/// Register every id of a list under one key, in order.
pub open spec fn w_register_all(
    w: Seq<WatchedReceipt>,
    ids: Seq<CryptoHash>,
    k: TransactionKey,
    block_height: u64,
    shard_id: u64,
) -> Seq<WatchedReceipt>
    decreases ids.len(),
{
    if ids.len() == 0 {
        w
    } else {
        w_register_all(
            w_register(w, WatchedReceipt { receipt_id: ids[0], key: k, block_height, shard_id }),
            ids.skip(1),
            k,
            block_height,
            shard_id,
        )
    }
}

/// Keys are pairwise distinct.
pub open spec fn t_unique(txs: Seq<(TransactionKey, SpecCollecting)>) -> bool {
    forall|i: int, j: int| 0 <= i < j < txs.len() ==> txs[i].0 != txs[j].0
}

pub open spec fn w_unique(w: Seq<WatchedReceipt>) -> bool {
    forall|i: int, j: int| 0 <= i < j < w.len() ==> w[i].receipt_id != w[j].receipt_id
}

/// Well-formedness of the assembly state.
pub open spec fn hs_wf(s: SpecHashStorage) -> bool {
    &&& t_unique(s.txs)
    &&& w_unique(s.watch)
    &&& forall|i: int|
        0 <= i < s.txs.len() ==> {
            &&& collecting_wf(#[trigger] s.txs[i].1)
            &&& s.txs[i].1.block_height == s.txs[i].0.block_height
            &&& s.txs[i].1.transaction.hash == s.txs[i].0.transaction_hash
        }
    &&& forall|i: int|
        0 <= i < s.watch.len() ==> t_find(s.txs, #[trigger] s.watch[i].key) is Some
    &&& forall|i: int, j: int|
        0 <= i < s.txs.len() && 0 <= j < s.txs[i].1.receipts.len() ==> {
            &&& w_find(s.watch, #[trigger] s.txs[i].1.receipts[j].receipt_id) is Some
            &&& w_find(s.watch, s.txs[i].1.receipts[j].receipt_id)->Some_0.key == s.txs[i].0
        }
}

/// Watch entries that do not belong to `k`; order kept.
pub open spec fn w_remove_key(w: Seq<WatchedReceipt>, k: TransactionKey) -> Seq<WatchedReceipt>
    decreases w.len(),
{
    if w.len() == 0 {
        w
    } else if w[0].key == k {
        w_remove_key(w.skip(1), k)
    } else {
        seq![w[0]] + w_remove_key(w.skip(1), k)
    }
}

/// Watch entries that belong to `k`, in order: what a finalization drains.
pub open spec fn w_drain_key(w: Seq<WatchedReceipt>, k: TransactionKey) -> Seq<WatchedReceipt>
    decreases w.len(),
{
    if w.len() == 0 {
        w
    } else if w[0].key == k {
        seq![w[0]] + w_drain_key(w.skip(1), k)
    } else {
        w_drain_key(w.skip(1), k)
    }
}

/// Cache entries other than `k`; order kept.
pub open spec fn t_remove(
    txs: Seq<(TransactionKey, SpecCollecting)>,
    k: TransactionKey,
) -> Seq<(TransactionKey, SpecCollecting)>
    decreases txs.len(),
{
    if txs.len() == 0 {
        txs
    } else if txs[0].0 == k {
        t_remove(txs.skip(1), k)
    } else {
        seq![txs[0]] + t_remove(txs.skip(1), k)
    }
}

// ---------------------------------------------------------------------------
// Lemmas about the association-list operations.
// ---------------------------------------------------------------------------

pub proof fn lemma_w_find_skip(w: Seq<WatchedReceipt>, id: CryptoHash, i: int)
    requires
        0 <= i <= w.len(),
        forall|j: int| 0 <= j < i ==> w[j].receipt_id != id,
    ensures
        w_find(w, id) == w_find(w.skip(i), id),
    decreases i,
{
    if i > 0 {
        assert(w.skip(1).skip(i - 1) =~= w.skip(i));
        lemma_w_find_skip(w.skip(1), id, i - 1);
    } else {
        assert(w.skip(0) =~= w);
    }
}

pub proof fn lemma_t_find_skip(
    txs: Seq<(TransactionKey, SpecCollecting)>,
    k: TransactionKey,
    i: int,
)
    requires
        0 <= i <= txs.len(),
        forall|j: int| 0 <= j < i ==> txs[j].0 != k,
    ensures
        t_find(txs, k) == t_find(txs.skip(i), k),
    decreases i,
{
    if i > 0 {
        assert(txs.skip(1).skip(i - 1) =~= txs.skip(i));
        lemma_t_find_skip(txs.skip(1), k, i - 1);
    } else {
        assert(txs.skip(0) =~= txs);
    }
}

/// A found entry is an element of the list.
pub proof fn lemma_w_find_is_elem(w: Seq<WatchedReceipt>, id: CryptoHash)
    requires
        w_find(w, id) is Some,
    ensures
        exists|i: int|
            0 <= i < w.len() && w[i] == w_find(w, id)->Some_0 && w[i].receipt_id == id,
    decreases w.len(),
{
    if w.len() > 0 && w[0].receipt_id != id {
        lemma_w_find_is_elem(w.skip(1), id);
        let i = choose|i: int|
            0 <= i < w.skip(1).len() && w.skip(1)[i] == w_find(w.skip(1), id)->Some_0 && w.skip(
                1,
            )[i].receipt_id == id;
        assert(w[i + 1] == w.skip(1)[i]);
    }
}

pub proof fn lemma_t_find_is_elem(txs: Seq<(TransactionKey, SpecCollecting)>, k: TransactionKey)
    requires
        t_find(txs, k) is Some,
    ensures
        exists|i: int| 0 <= i < txs.len() && txs[i] == (k, t_find(txs, k)->Some_0),
    decreases txs.len(),
{
    if txs.len() > 0 && txs[0].0 != k {
        lemma_t_find_is_elem(txs.skip(1), k);
        let i = choose|i: int|
            0 <= i < txs.skip(1).len() && txs.skip(1)[i] == (k, t_find(txs.skip(1), k)->Some_0);
        assert(txs[i + 1] == txs.skip(1)[i]);
    }
}

/// An element's id is found: with unique ids, at that very entry.
pub proof fn lemma_w_elem_found(w: Seq<WatchedReceipt>, i: int)
    requires
        w_unique(w),
        0 <= i < w.len(),
    ensures
        w_find(w, w[i].receipt_id) == Some(w[i]),
    decreases w.len(),
{
    if i > 0 {
        assert(forall|a: int, b: int|
            0 <= a < b < w.skip(1).len() ==> w.skip(1)[a].receipt_id != w.skip(1)[b].receipt_id);
        lemma_w_elem_found(w.skip(1), i - 1);
    }
}

/// What `t_put` finds, and that it keeps uniqueness and every entry either
/// is the written pair or an untouched original.
pub proof fn lemma_t_put_props(
    txs: Seq<(TransactionKey, SpecCollecting)>,
    k: TransactionKey,
    c: SpecCollecting,
)
    requires
        t_unique(txs),
    ensures
        t_unique(t_put(txs, k, c)),
        forall|k2: TransactionKey| #[trigger] t_find(t_put(txs, k, c), k2) == (if k2 == k {
            Some(c)
        } else {
            t_find(txs, k2)
        }),
        forall|i: int|
            0 <= i < t_put(txs, k, c).len() ==> (#[trigger] t_put(txs, k, c)[i] == (k, c)
                || (txs.contains(t_put(txs, k, c)[i]) && t_put(txs, k, c)[i].0 != k)),
    decreases txs.len(),
{
    let res = t_put(txs, k, c);
    if txs.len() == 0 {
        assert(res == seq![(k, c)]);
        assert forall|k2: TransactionKey| #[trigger] t_find(res, k2) == (if k2 == k {
            Some(c)
        } else {
            t_find(txs, k2)
        }) by {
            assert(res.len() == 1);
            assert(res[0] == (k, c));
            assert(res.skip(1) =~= Seq::<(TransactionKey, SpecCollecting)>::empty());
            if k2 == k {
                assert(t_find(res, k2) == Some(c));
            } else {
                assert(t_find(res, k2) == t_find(res.skip(1), k2));
                assert(t_find(res.skip(1), k2) == None::<SpecCollecting>);
            }
        }
        assert forall|i: int|
            0 <= i < res.len() implies (#[trigger] res[i] == (k, c) || (txs.contains(res[i])
                && res[i].0 != k)) by {}
        assert(t_unique(res));
    } else if txs[0].0 == k {
        assert forall|k2: TransactionKey| #[trigger] t_find(res, k2) == (if k2 == k {
            Some(c)
        } else {
            t_find(txs, k2)
        }) by {
            assert(res[0] == (k, c));
            assert(res.skip(1) =~= txs.skip(1));
        }
        assert forall|i: int|
            0 <= i < res.len() implies (#[trigger] res[i] == (k, c) || (txs.contains(res[i])
                && res[i].0 != k)) by {
            if i > 0 {
                assert(res[i] == txs[i]);
                assert(txs.contains(txs[i]));
                assert(txs[i].0 != k);
            }
        }
        assert(t_unique(res));
    } else {
        assert(forall|a: int, b: int|
            0 <= a < b < txs.skip(1).len() ==> txs.skip(1)[a].0 != txs.skip(1)[b].0);
        lemma_t_put_props(txs.skip(1), k, c);
        let rest = t_put(txs.skip(1), k, c);
        assert(res[0] == txs[0]);
        assert(res.skip(1) =~= rest);
        assert forall|k2: TransactionKey| #[trigger] t_find(res, k2) == (if k2 == k {
            Some(c)
        } else {
            t_find(txs, k2)
        }) by {
            assert(t_find(res, k2) == if res[0].0 == k2 {
                Some(res[0].1)
            } else {
                t_find(rest, k2)
            });
        }
        assert forall|i: int|
            0 <= i < res.len() implies (#[trigger] res[i] == (k, c) || (txs.contains(res[i])
                && res[i].0 != k)) by {
            if i > 0 {
                assert(res[i] == rest[i - 1]);
                if rest[i - 1] == (k, c) {
                } else {
                    assert(txs.skip(1).contains(rest[i - 1]));
                    let j = choose|j: int|
                        0 <= j < txs.skip(1).len() && txs.skip(1)[j] == rest[i - 1];
                    assert(txs[j + 1] == txs.skip(1)[j]);
                    assert(txs.contains(rest[i - 1]));
                }
            } else {
                assert(txs.contains(txs[0]));
                assert(txs[0].0 != k);
            }
        }
        assert forall|a: int, b: int| 0 <= a < b < res.len() implies res[a].0 != res[b].0 by {
            if a == 0 {
                if res[b] == (k, c) {
                } else {
                    assert(txs.contains(res[b]));
                    let j = choose|j: int| 0 <= j < txs.len() && txs[j] == res[b];
                    if j == 0 {
                        assert(res[b].0 != k);
                        assert(false);
                    }
                }
            } else {
                assert(rest[a - 1].0 != rest[b - 1].0);
            }
        }
    }
}

/// What `t_modify` finds; entries other than `k` are untouched, length and
/// keys are kept.
pub proof fn lemma_t_modify_props(
    txs: Seq<(TransactionKey, SpecCollecting)>,
    k: TransactionKey,
    f: spec_fn(SpecCollecting) -> SpecCollecting,
)
    requires
        t_unique(txs),
    ensures
        t_modify(txs, k, f).len() == txs.len(),
        forall|i: int| 0 <= i < txs.len() ==> (#[trigger] t_modify(txs, k, f)[i].0 == txs[i].0),
        forall|i: int|
            0 <= i < txs.len() ==> #[trigger] t_modify(txs, k, f)[i] == (if txs[i].0 == k {
                (k, f(txs[i].1))
            } else {
                txs[i]
            }),
        forall|k2: TransactionKey| #[trigger] t_find(t_modify(txs, k, f), k2) == (match t_find(
            txs,
            k2,
        ) {
            Some(c) => if k2 == k {
                Some(f(c))
            } else {
                Some(c)
            },
            None => None,
        }),
    decreases txs.len(),
{
    let res = t_modify(txs, k, f);
    if txs.len() == 0 {
    } else if txs[0].0 == k {
        assert(res.skip(1) =~= txs.skip(1));
        assert forall|k2: TransactionKey| #[trigger] t_find(res, k2) == (match t_find(txs, k2) {
            Some(c) => if k2 == k {
                Some(f(c))
            } else {
                Some(c)
            },
            None => None,
        }) by {
            if k2 == k {
                assert(t_find(res, k2) == Some(f(txs[0].1)));
            } else {
                assert(t_find(res, k2) == t_find(txs.skip(1), k2));
            }
            assert forall|j: int| 0 < j < txs.len() implies txs[j].0 != k by {
                assert(txs[0].0 == k);
            }
            if k2 == k {
                assert(t_find(txs, k2) == Some(txs[0].1));
            }
        }
        assert forall|i: int|
            0 <= i < txs.len() implies #[trigger] res[i] == (if txs[i].0 == k {
                (k, f(txs[i].1))
            } else {
                txs[i]
            }) by {
            if i > 0 {
                assert(res[i] == txs[i]);
                assert(txs[i].0 != k);
            }
        }
    } else {
        assert(forall|a: int, b: int|
            0 <= a < b < txs.skip(1).len() ==> txs.skip(1)[a].0 != txs.skip(1)[b].0);
        lemma_t_modify_props(txs.skip(1), k, f);
        let rest = t_modify(txs.skip(1), k, f);
        assert(res[0] == txs[0]);
        assert(res.skip(1) =~= rest);
        assert forall|i: int|
            0 <= i < txs.len() implies #[trigger] res[i] == (if txs[i].0 == k {
                (k, f(txs[i].1))
            } else {
                txs[i]
            }) by {
            if i > 0 {
                assert(res[i] == rest[i - 1]);
                assert(txs.skip(1)[i - 1] == txs[i]);
            }
        }
        assert forall|i: int| 0 <= i < txs.len() implies (#[trigger] res[i].0 == txs[i].0) by {}
        assert forall|k2: TransactionKey| #[trigger] t_find(res, k2) == (match t_find(txs, k2) {
            Some(c) => if k2 == k {
                Some(f(c))
            } else {
                Some(c)
            },
            None => None,
        }) by {
            assert(t_find(res, k2) == if res[0].0 == k2 {
                Some(res[0].1)
            } else {
                t_find(rest, k2)
            });
        }
    }
}

/// What the watch list finds after a push.
pub proof fn lemma_w_find_push(w: Seq<WatchedReceipt>, wr: WatchedReceipt, id: CryptoHash)
    ensures
        w_find(w.push(wr), id) == (match w_find(w, id) {
            Some(e) => Some(e),
            None => if wr.receipt_id == id {
                Some(wr)
            } else {
                None
            },
        }),
    decreases w.len(),
{
    if w.len() == 0 {
        assert(w.push(wr).len() == 1);
        assert(w.push(wr)[0] == wr);
        assert(w.push(wr).skip(1) =~= Seq::<WatchedReceipt>::empty());
        if wr.receipt_id == id {
            assert(w_find(w.push(wr), id) == Some(wr));
        } else {
            assert(w_find(w.push(wr), id) == w_find(w.push(wr).skip(1), id));
            assert(w_find(w.push(wr).skip(1), id) == None::<WatchedReceipt>);
        }
    } else {
        assert(w.push(wr).len() == w.len() + 1);
        assert(w.push(wr)[0] == w[0]);
        assert(w.push(wr).skip(1) =~= w.skip(1).push(wr));
        lemma_w_find_push(w.skip(1), wr, id);
    }
}

/// Registration of many ids: existing bindings survive untouched, the new
/// entries all carry the given key, block and shard, and every id of the
/// list ends up watched.
pub proof fn lemma_w_register_all_props(
    w: Seq<WatchedReceipt>,
    ids: Seq<CryptoHash>,
    k: TransactionKey,
    h: u64,
    sh: u64,
)
    requires
        w_unique(w),
    ensures
        w_unique(w_register_all(w, ids, k, h, sh)),
        w.is_prefix_of(w_register_all(w, ids, k, h, sh)),
        forall|i: int|
            w.len() <= i < w_register_all(w, ids, k, h, sh).len()
                ==> #[trigger] w_register_all(w, ids, k, h, sh)[i] == (WatchedReceipt {
                receipt_id: w_register_all(w, ids, k, h, sh)[i].receipt_id,
                key: k,
                block_height: h,
                shard_id: sh,
            }),
        forall|id: CryptoHash|
            #[trigger] w_find(w_register_all(w, ids, k, h, sh), id) == (match w_find(w, id) {
                Some(e) => Some(e),
                None => if ids.contains(id) {
                    Some(WatchedReceipt { receipt_id: id, key: k, block_height: h, shard_id: sh })
                } else {
                    None
                },
            }),
    decreases ids.len(),
{
    let res = w_register_all(w, ids, k, h, sh);
    if ids.len() == 0 {
        assert forall|id: CryptoHash| #[trigger] w_find(res, id) == (match w_find(w, id) {
            Some(e) => Some(e),
            None => if ids.contains(id) {
                Some(WatchedReceipt { receipt_id: id, key: k, block_height: h, shard_id: sh })
            } else {
                None
            },
        }) by {
            assert(!ids.contains(id));
        }
        assert(w.is_prefix_of(res));
    } else {
        let wr0 = WatchedReceipt { receipt_id: ids[0], key: k, block_height: h, shard_id: sh };
        let w1 = w_register(w, wr0);
        assert forall|a: int, b: int|
            0 <= a < b < w1.len() implies w1[a].receipt_id != w1[b].receipt_id by {
            if w_find(w, wr0.receipt_id) is None && b == w.len() {
                lemma_w_elem_found(w, a);
            }
        }
        lemma_w_register_all_props(w1, ids.skip(1), k, h, sh);
        if w_find(w, wr0.receipt_id) is None {
            assert(w.is_prefix_of(w1));
        }
        assert(w.is_prefix_of(res));
        assert forall|i: int|
            w.len() <= i < res.len() implies #[trigger] res[i] == (WatchedReceipt {
                receipt_id: res[i].receipt_id,
                key: k,
                block_height: h,
                shard_id: sh,
            }) by {
            if i < w1.len() {
                assert(w1[i] == wr0);
            }
        }
        assert forall|id: CryptoHash| #[trigger] w_find(res, id) == (match w_find(w, id) {
            Some(e) => Some(e),
            None => if ids.contains(id) {
                Some(WatchedReceipt { receipt_id: id, key: k, block_height: h, shard_id: sh })
            } else {
                None
            },
        }) by {
            lemma_w_find_push(w, wr0, id);
            if w_find(w, id) is None {
                if ids.contains(id) {
                    let j = choose|j: int| 0 <= j < ids.len() && ids[j] == id;
                    if j > 0 {
                        assert(ids.skip(1)[j - 1] == id);
                        assert(ids.skip(1).contains(id));
                    }
                } else {
                    assert(!ids.skip(1).contains(id)) by {
                        if ids.skip(1).contains(id) {
                            let j = choose|j: int|
                                0 <= j < ids.skip(1).len() && ids.skip(1)[j] == id;
                            assert(ids[j + 1] == id);
                        }
                    }
                }
            } else {
                if ids.skip(1).contains(id) {
                }
            }
        }
    }
}

/// Removal and drain by key: what survives, what is drained, and what the
/// watch list finds afterwards.
pub proof fn lemma_w_remove_props(w: Seq<WatchedReceipt>, k: TransactionKey)
    requires
        w_unique(w),
    ensures
        w_unique(w_remove_key(w, k)),
        forall|i: int| 0 <= i < w_remove_key(w, k).len() ==> #[trigger] w_remove_key(w, k)[i].key != k,
        forall|i: int| 0 <= i < w_remove_key(w, k).len() ==> w.contains(#[trigger] w_remove_key(w, k)[i]),
        forall|i: int| 0 <= i < w_drain_key(w, k).len() ==> #[trigger] w_drain_key(w, k)[i].key == k,
        forall|id: CryptoHash| #[trigger] w_find(w_remove_key(w, k), id) == (match w_find(w, id) {
            Some(e) => if e.key == k {
                None
            } else {
                Some(e)
            },
            None => None,
        }),
        forall|i: int|
            0 <= i < w.len() && w[i].key == k ==> w_drain_key(w, k).contains(#[trigger] w[i]),
        forall|i: int|
            0 <= i < w.len() && w[i].key != k ==> w_remove_key(w, k).contains(#[trigger] w[i]),
    decreases w.len(),
{
    let kept = w_remove_key(w, k);
    let drained = w_drain_key(w, k);
    if w.len() == 0 {
    } else {
        assert(forall|a: int, b: int|
            0 <= a < b < w.skip(1).len() ==> w.skip(1)[a].receipt_id != w.skip(1)[b].receipt_id);
        lemma_w_remove_props(w.skip(1), k);
        let kept1 = w_remove_key(w.skip(1), k);
        let drained1 = w_drain_key(w.skip(1), k);
        assert forall|i: int|
            0 <= i < w.len() && w[i].key == k implies drained.contains(#[trigger] w[i]) by {
            if i == 0 {
                assert(drained[0] == w[0]);
            } else {
                assert(w.skip(1)[i - 1] == w[i]);
                assert(drained1.contains(w[i]));
                let j = choose|j: int| 0 <= j < drained1.len() && drained1[j] == w[i];
                if w[0].key == k {
                    assert(drained[j + 1] == w[i]);
                } else {
                    assert(drained[j] == w[i]);
                }
            }
        }
        assert forall|i: int|
            0 <= i < w.len() && w[i].key != k implies kept.contains(#[trigger] w[i]) by {
            if i == 0 {
                assert(kept[0] == w[0]);
            } else {
                assert(w.skip(1)[i - 1] == w[i]);
                assert(kept1.contains(w[i]));
                let j = choose|j: int| 0 <= j < kept1.len() && kept1[j] == w[i];
                if w[0].key == k {
                    assert(kept[j] == w[i]);
                } else {
                    assert(kept[j + 1] == w[i]);
                }
            }
        }
        assert forall|i: int| 0 <= i < kept.len() implies w.contains(#[trigger] kept[i]) by {
            if w[0].key == k {
                assert(w.skip(1).contains(kept[i]));
            } else {
                if i > 0 {
                    assert(w.skip(1).contains(kept[i]));
                }
            }
            if w[0].key != k && i == 0 {
                assert(w.contains(w[0]));
            } else {
                let j = choose|j: int| 0 <= j < w.skip(1).len() && w.skip(1)[j] == kept[i];
                assert(w[j + 1] == w.skip(1)[j]);
            }
        }
        assert forall|id: CryptoHash| #[trigger] w_find(kept, id) == (match w_find(w, id) {
            Some(e) => if e.key == k {
                None
            } else {
                Some(e)
            },
            None => None,
        }) by {
            if w[0].key == k {
                if w[0].receipt_id == id {
                    if w_find(kept1, id) is Some {
                        lemma_w_find_is_elem(kept1, id);
                        let j = choose|j: int|
                            0 <= j < kept1.len() && kept1[j] == w_find(kept1, id)->Some_0
                                && kept1[j].receipt_id == id;
                        assert(w.skip(1).contains(kept1[j]));
                        let m = choose|m: int|
                            0 <= m < w.skip(1).len() && w.skip(1)[m] == kept1[j];
                        assert(w[m + 1].receipt_id == id);
                        assert(w[0].receipt_id == id);
                    }
                }
            } else {
                assert(kept[0] == w[0]);
                assert(kept.skip(1) =~= kept1);
            }
        }
        assert forall|a: int, b: int|
            0 <= a < b < kept.len() implies kept[a].receipt_id != kept[b].receipt_id by {
            if w[0].key != k && a == 0 {
                assert(kept.skip(1) =~= kept1);
                assert(w.skip(1).contains(kept1[b - 1]));
                let m = choose|m: int| 0 <= m < w.skip(1).len() && w.skip(1)[m] == kept[b];
                assert(w[m + 1] == kept[b]);
            } else {
                if w[0].key == k {
                } else {
                    assert(kept.skip(1) =~= kept1);
                    assert(kept[a] == kept1[a - 1] && kept[b] == kept1[b - 1]);
                }
            }
        }
    }
}

pub proof fn lemma_t_remove_props(txs: Seq<(TransactionKey, SpecCollecting)>, k: TransactionKey)
    requires
        t_unique(txs),
    ensures
        t_unique(t_remove(txs, k)),
        forall|i: int| 0 <= i < t_remove(txs, k).len() ==> #[trigger] t_remove(txs, k)[i].0 != k,
        forall|i: int| 0 <= i < t_remove(txs, k).len() ==> txs.contains(#[trigger] t_remove(txs, k)[i]),
        forall|k2: TransactionKey| #[trigger] t_find(t_remove(txs, k), k2) == (if k2 == k {
            None::<SpecCollecting>
        } else {
            t_find(txs, k2)
        }),
    decreases txs.len(),
{
    let kept = t_remove(txs, k);
    if txs.len() == 0 {
    } else {
        assert(forall|a: int, b: int|
            0 <= a < b < txs.skip(1).len() ==> txs.skip(1)[a].0 != txs.skip(1)[b].0);
        lemma_t_remove_props(txs.skip(1), k);
        let kept1 = t_remove(txs.skip(1), k);
        assert forall|i: int| 0 <= i < kept.len() implies txs.contains(#[trigger] kept[i]) by {
            if txs[0].0 != k && i == 0 {
                assert(txs.contains(txs[0]));
            } else {
                if txs[0].0 == k {
                    assert(txs.skip(1).contains(kept[i]));
                } else {
                    assert(kept.skip(1) =~= kept1);
                    assert(txs.skip(1).contains(kept[i]));
                }
                let j = choose|j: int| 0 <= j < txs.skip(1).len() && txs.skip(1)[j] == kept[i];
                assert(txs[j + 1] == txs.skip(1)[j]);
            }
        }
        assert forall|k2: TransactionKey| #[trigger] t_find(kept, k2) == (if k2 == k {
            None::<SpecCollecting>
        } else {
            t_find(txs, k2)
        }) by {
            if txs[0].0 == k {
                if k2 == txs[0].0 {
                    if t_find(kept1, k2) is Some {
                        lemma_t_find_is_elem(kept1, k2);
                        let j = choose|j: int|
                            0 <= j < kept1.len() && kept1[j] == (k2, t_find(kept1, k2)->Some_0);
                        assert(txs.skip(1).contains(kept1[j]));
                        let m = choose|m: int|
                            0 <= m < txs.skip(1).len() && txs.skip(1)[m] == kept1[j];
                        assert(txs[m + 1].0 == k2);
                    }
                }
            } else {
                assert(kept[0] == txs[0]);
                assert(kept.skip(1) =~= kept1);
            }
        }
        assert forall|a: int, b: int| 0 <= a < b < kept.len() implies kept[a].0 != kept[b].0 by {
            if txs[0].0 != k && a == 0 {
                assert(kept.skip(1) =~= kept1);
                assert(txs.skip(1).contains(kept1[b - 1]));
                let m = choose|m: int| 0 <= m < txs.skip(1).len() && txs.skip(1)[m] == kept[b];
                assert(txs[m + 1] == kept[b]);
            } else {
                if txs[0].0 == k {
                } else {
                    assert(kept.skip(1) =~= kept1);
                    assert(kept[a] == kept1[a - 1] && kept[b] == kept1[b - 1]);
                }
            }
        }
    }
}

// ---------------------------------------------------------------------------
// Fold lemmas: the head-first spec functions, consumed by forward loops.
// ---------------------------------------------------------------------------

pub proof fn lemma_w_register_all_push(
    w: Seq<WatchedReceipt>,
    ids: Seq<CryptoHash>,
    x: CryptoHash,
    k: TransactionKey,
    h: u64,
    sh: u64,
)
    ensures
        w_register_all(w, ids.push(x), k, h, sh) == w_register(
            w_register_all(w, ids, k, h, sh),
            WatchedReceipt { receipt_id: x, key: k, block_height: h, shard_id: sh },
        ),
    decreases ids.len(),
{
    reveal_with_fuel(w_register_all, 3);
    if ids.len() == 0 {
        assert(ids.push(x)[0] == x);
        assert(ids.push(x).skip(1) =~= Seq::<CryptoHash>::empty());
    } else {
        assert(ids.push(x)[0] == ids[0]);
        assert(ids.push(x).skip(1) =~= ids.skip(1).push(x));
        lemma_w_register_all_push(
            w_register(
                w,
                WatchedReceipt { receipt_id: ids[0], key: k, block_height: h, shard_id: sh },
            ),
            ids.skip(1),
            x,
            k,
            h,
            sh,
        );
    }
}

pub proof fn lemma_w_remove_push(w: Seq<WatchedReceipt>, x: WatchedReceipt, k: TransactionKey)
    ensures
        w_remove_key(w.push(x), k) == (if x.key == k {
            w_remove_key(w, k)
        } else {
            w_remove_key(w, k).push(x)
        }),
        w_drain_key(w.push(x), k) == (if x.key == k {
            w_drain_key(w, k).push(x)
        } else {
            w_drain_key(w, k)
        }),
    decreases w.len(),
{
    reveal_with_fuel(w_remove_key, 3);
    reveal_with_fuel(w_drain_key, 3);
    if w.len() == 0 {
        assert(w.push(x)[0] == x);
        assert(w.push(x).skip(1) =~= Seq::<WatchedReceipt>::empty());
        if x.key == k {
            assert(w_drain_key(w.push(x), k) =~= w_drain_key(w, k).push(x));
        } else {
            assert(w_remove_key(w.push(x), k) =~= w_remove_key(w, k).push(x));
        }
    } else {
        assert(w.push(x)[0] == w[0]);
        assert(w.push(x).skip(1) =~= w.skip(1).push(x));
        lemma_w_remove_push(w.skip(1), x, k);
        if x.key == k {
            if w[0].key == k {
                assert(w_drain_key(w.push(x), k) =~= w_drain_key(w, k).push(x));
            } else {
                assert(w_drain_key(w.push(x), k) =~= w_drain_key(w, k).push(x));
            }
        } else {
            if w[0].key == k {
                assert(w_remove_key(w.push(x), k) =~= w_remove_key(w, k).push(x));
            } else {
                assert(w_remove_key(w.push(x), k) =~= w_remove_key(w, k).push(x));
            }
        }
    }
}

pub proof fn lemma_t_remove_push(
    txs: Seq<(TransactionKey, SpecCollecting)>,
    x: (TransactionKey, SpecCollecting),
    k: TransactionKey,
)
    ensures
        t_remove(txs.push(x), k) == (if x.0 == k {
            t_remove(txs, k)
        } else {
            t_remove(txs, k).push(x)
        }),
    decreases txs.len(),
{
    reveal_with_fuel(t_remove, 3);
    if txs.len() == 0 {
        assert(txs.push(x)[0] == x);
        assert(txs.push(x).skip(1) =~= Seq::<(TransactionKey, SpecCollecting)>::empty());
        if x.0 != k {
            assert(t_remove(txs.push(x), k) =~= t_remove(txs, k).push(x));
        }
    } else {
        assert(txs.push(x)[0] == txs[0]);
        assert(txs.push(x).skip(1) =~= txs.skip(1).push(x));
        lemma_t_remove_push(txs.skip(1), x, k);
        if x.0 == k {
            if txs[0].0 != k {
                assert(t_remove(txs.push(x), k) =~= t_remove(txs, k));
            }
        } else {
            assert(t_remove(txs.push(x), k) =~= t_remove(txs, k).push(x));
        }
    }
}

/// With unique keys, writing a present key is an in-place update.
pub proof fn lemma_t_put_at_index(
    txs: Seq<(TransactionKey, SpecCollecting)>,
    k: TransactionKey,
    c: SpecCollecting,
    i: int,
)
    requires
        t_unique(txs),
        0 <= i < txs.len(),
        txs[i].0 == k,
    ensures
        t_put(txs, k, c) == txs.update(i, (k, c)),
    decreases txs.len(),
{
    if i == 0 {
        assert(t_put(txs, k, c) =~= txs.update(0, (k, c)));
    } else {
        assert(forall|a: int, b: int|
            0 <= a < b < txs.skip(1).len() ==> txs.skip(1)[a].0 != txs.skip(1)[b].0);
        assert(txs.skip(1)[i - 1] == txs[i]);
        lemma_t_put_at_index(txs.skip(1), k, c, i - 1);
        assert(t_put(txs, k, c) =~= txs.update(i, (k, c)));
    }
}

/// Writing an absent key appends.
pub proof fn lemma_t_put_absent(
    txs: Seq<(TransactionKey, SpecCollecting)>,
    k: TransactionKey,
    c: SpecCollecting,
)
    requires
        t_find(txs, k) is None,
    ensures
        t_put(txs, k, c) == txs.push((k, c)),
    decreases txs.len(),
{
    if txs.len() == 0 {
        assert(t_put(txs, k, c) =~= txs.push((k, c)));
    } else {
        lemma_t_put_absent(txs.skip(1), k, c);
        assert(txs.push((k, c)).skip(1) =~= txs.skip(1).push((k, c)));
        assert(t_put(txs, k, c) =~= txs.push((k, c)));
    }
}

/// With unique keys, modifying a present key is an in-place update.
pub proof fn lemma_t_modify_at_index(
    txs: Seq<(TransactionKey, SpecCollecting)>,
    k: TransactionKey,
    f: spec_fn(SpecCollecting) -> SpecCollecting,
    i: int,
)
    requires
        t_unique(txs),
        0 <= i < txs.len(),
        txs[i].0 == k,
    ensures
        t_modify(txs, k, f) == txs.update(i, (k, f(txs[i].1))),
    decreases txs.len(),
{
    if i == 0 {
        assert(t_modify(txs, k, f) =~= txs.update(0, (k, f(txs[0].1))));
    } else {
        assert(forall|a: int, b: int|
            0 <= a < b < txs.skip(1).len() ==> txs.skip(1)[a].0 != txs.skip(1)[b].0);
        assert(txs.skip(1)[i - 1] == txs[i]);
        lemma_t_modify_at_index(txs.skip(1), k, f, i - 1);
        assert(t_modify(txs, k, f) =~= txs.update(i, (k, f(txs[i].1))));
    }
}

// ---------------------------------------------------------------------------
// Derived spec operations the engine steps are phrased in.
// ---------------------------------------------------------------------------

/// A receipt view appended to a collecting record.
pub open spec fn with_receipt(c: SpecCollecting, r: crate::primitives::SpecReceiptView) -> SpecCollecting {
    SpecCollecting { receipts: c.receipts.push(r), ..c }
}

/// An execution outcome appended to a collecting record.
pub open spec fn with_outcome(c: SpecCollecting, o: crate::primitives::SpecOutcomeWithId) -> SpecCollecting {
    SpecCollecting { execution_outcomes: c.execution_outcomes.push(o), ..c }
}

pub open spec fn t_attach_receipt(
    txs: Seq<(TransactionKey, SpecCollecting)>,
    k: TransactionKey,
    r: crate::primitives::SpecReceiptView,
) -> Seq<(TransactionKey, SpecCollecting)> {
    t_modify(txs, k, |c: SpecCollecting| with_receipt(c, r))
}

pub open spec fn t_attach_outcome(
    txs: Seq<(TransactionKey, SpecCollecting)>,
    k: TransactionKey,
    o: crate::primitives::SpecOutcomeWithId,
) -> Seq<(TransactionKey, SpecCollecting)> {
    t_modify(txs, k, |c: SpecCollecting| with_outcome(c, o))
}

/// The fresh collecting record a newly observed transaction starts with.
pub open spec fn fresh_collecting(t: SpecIndexerTransaction, block_height: u64) -> SpecCollecting {
    SpecCollecting {
        transaction: t.transaction,
        receipts: Seq::empty(),
        execution_outcomes: seq![t.outcome],
        block_height,
    }
}

/// What registering a receipt id reported.
#[derive(Clone, Copy, PartialEq, Eq, Structural, Debug)]
pub enum RegisterOutcome {
    /// The id was not watched before; it is now.
    Inserted,
    /// The id was already watched under the same key; nothing changed.
    AlreadyWatched,
    /// The id was already watched under a different key; the first binding
    /// is kept and the new one dropped.
    Conflict,
}

impl HashStorage {
    pub fn new() -> (r: HashStorage)
        ensures
            hs_wf(r@),
            r@.txs == Seq::<(TransactionKey, SpecCollecting)>::empty(),
            r@.watch == Seq::<WatchedReceipt>::empty(),
    {
        let r = HashStorage { transactions: Vec::new(), receipts_watching: Vec::new() };
        proof {
            assert(r@.txs =~= Seq::<(TransactionKey, SpecCollecting)>::empty());
        }
        r
    }

    /// The watch entry of a receipt id, if the id is being watched.
    pub fn find_watched(&self, id: CryptoHash) -> (r: Option<WatchedReceipt>)
        ensures
            r == w_find(self@.watch, id),
    {
        let mut i: usize = 0;
        while i < self.receipts_watching.len()
            invariant
                i <= self.receipts_watching@.len(),
                forall|j: int| 0 <= j < i ==> self.receipts_watching@[j].receipt_id != id,
            decreases self.receipts_watching@.len() - i,
        {
            if self.receipts_watching[i].receipt_id == id {
                proof {
                    lemma_w_find_skip(self@.watch, id, i as int);
                    assert(self@.watch.skip(i as int)[0] == self@.watch[i as int]);
                }
                return Some(self.receipts_watching[i]);
            }
            i = i + 1;
        }
        proof {
            lemma_w_find_skip(self@.watch, id, self@.watch.len() as int);
            assert(self@.watch.skip(self@.watch.len() as int).len() == 0);
        }
        None
    }

    /// Index of the cache entry for a key.
    fn find_tx_index(&self, k: &TransactionKey) -> (r: Option<usize>)
        ensures
            match r {
                Some(i) => {
                    &&& i < self.transactions@.len()
                    &&& self.transactions@[i as int].key == *k
                    &&& t_find(self@.txs, *k) == Some(self.transactions@[i as int].tx@)
                },
                None => t_find(self@.txs, *k) is None,
            },
    {
        let mut i: usize = 0;
        while i < self.transactions.len()
            invariant
                i <= self.transactions@.len(),
                forall|j: int| 0 <= j < i ==> self@.txs[j].0 != *k,
            decreases self.transactions@.len() - i,
        {
            if self.transactions[i].key == *k {
                proof {
                    lemma_t_find_skip(self@.txs, *k, i as int);
                    assert(self@.txs.skip(i as int)[0] == self@.txs[i as int]);
                }
                return Some(i);
            }
            i = i + 1;
        }
        proof {
            lemma_t_find_skip(self@.txs, *k, self@.txs.len() as int);
            assert(self@.txs.skip(self@.txs.len() as int).len() == 0);
        }
        None
    }

    /// The record collected so far under a key, frozen on demand by the
    /// caller.
    pub fn get_collecting(&self, k: &TransactionKey) -> (r: Option<&CollectingTransactionDetails>)
        ensures
            match r {
                Some(c) => t_find(self@.txs, *k) == Some(c@),
                None => t_find(self@.txs, *k) is None,
            },
    {
        match self.find_tx_index(k) {
            Some(i) => Some(&self.transactions[i].tx),
            None => None,
        }
    }

    /// Idempotent insert into the watch list: a duplicate under the same
    /// key is a no-op, a duplicate under a different key keeps the first
    /// binding and reports the conflict.
    pub fn push_receipt_to_watching_list(&mut self, wr: WatchedReceipt) -> (r: RegisterOutcome)
        requires
            hs_wf(old(self)@),
            t_find(old(self)@.txs, wr.key) is Some,
        ensures
            hs_wf(final(self)@),
            final(self)@.txs == old(self)@.txs,
            final(self)@.watch == w_register(old(self)@.watch, wr),
            r == (match w_find(old(self)@.watch, wr.receipt_id) {
                None => RegisterOutcome::Inserted,
                Some(e) => if e.key == wr.key {
                    RegisterOutcome::AlreadyWatched
                } else {
                    RegisterOutcome::Conflict
                },
            }),
    {
        let ghost w0 = self@.watch;
        match self.find_watched(wr.receipt_id) {
            Some(e) => {
                if e.key == wr.key {
                    RegisterOutcome::AlreadyWatched
                } else {
                    RegisterOutcome::Conflict
                }
            },
            None => {
                self.receipts_watching.push(wr);
                proof {
                    assert forall|a: int, b: int|
                        0 <= a < b < self@.watch.len() implies self@.watch[a].receipt_id
                        != self@.watch[b].receipt_id by {
                        if b == w0.len() {
                            lemma_w_elem_found(w0, a);
                        }
                    }
                    assert forall|i: int, j: int|
                        0 <= i < self@.txs.len() && 0 <= j < self@.txs[i].1.receipts.len()
                            implies {
                            &&& w_find(
                                self@.watch,
                                #[trigger] self@.txs[i].1.receipts[j].receipt_id,
                            ) is Some
                            &&& w_find(self@.watch, self@.txs[i].1.receipts[j].receipt_id)->Some_0.key
                                == self@.txs[i].0
                        } by {
                        lemma_w_find_push(w0, wr, self@.txs[i].1.receipts[j].receipt_id);
                    }
                }
                RegisterOutcome::Inserted
            },
        }
    }

    /// Starts collecting a transaction observed in a block: a fresh record
    /// seeded with the transaction's own outcome replaces any record under
    /// the same key, and the outcome's spawned receipt ids are watched
    /// under that key.
    pub fn start_transaction(
        &mut self,
        tx: IndexerTransactionWithOutcome,
        block_height: u64,
        shard_id: u64,
    ) -> (key: TransactionKey)
        requires
            hs_wf(old(self)@),
            tx@.outcome.id == tx@.transaction.hash,
        ensures
            hs_wf(final(self)@),
            key == (TransactionKey {
                transaction_hash: tx@.transaction.hash,
                block_height,
            }),
            final(self)@.txs == t_put(
                old(self)@.txs,
                key,
                fresh_collecting(tx@, block_height),
            ),
            final(self)@.watch == w_register_all(
                old(self)@.watch,
                tx@.outcome.outcome.receipt_ids,
                key,
                block_height,
                shard_id,
            ),
    {
        let ghost old_state = self@;
        let ghost itx = tx@;
        let ids = crate::primitives::clone_hashes(&tx.outcome.outcome.receipt_ids);
        let c = CollectingTransactionDetails::from_indexer_tx(tx, block_height);
        let key = c.transaction_key();
        let ghost fresh = fresh_collecting(itx, block_height);
        proof {
            assert(c@ =~= fresh);
        }
        match self.find_tx_index(&key) {
            Some(i) => {
                self.transactions.set(i, TxEntry { key, tx: c });
                proof {
                    lemma_t_put_at_index(old_state.txs, key, fresh, i as int);
                    assert(self@.txs =~= old_state.txs.update(i as int, (key, fresh)));
                }
            },
            None => {
                self.transactions.push(TxEntry { key, tx: c });
                proof {
                    lemma_t_put_absent(old_state.txs, key, fresh);
                    assert(self@.txs =~= old_state.txs.push((key, fresh)));
                }
            },
        }
        let ghost mid = self@;
        proof {
            lemma_t_put_props(old_state.txs, key, fresh);
            assert forall|i: int, j: int|
                0 <= i < mid.txs.len() && 0 <= j < mid.txs[i].1.receipts.len() implies {
                    &&& w_find(mid.watch, #[trigger] mid.txs[i].1.receipts[j].receipt_id) is Some
                    &&& w_find(mid.watch, mid.txs[i].1.receipts[j].receipt_id)->Some_0.key
                        == mid.txs[i].0
                } by {
                if mid.txs[i] == (key, fresh) {
                } else {
                    assert(old_state.txs.contains(mid.txs[i]));
                    let m = choose|m: int|
                        0 <= m < old_state.txs.len() && old_state.txs[m] == mid.txs[i];
                }
            }
            assert forall|i: int|
                0 <= i < mid.watch.len() implies t_find(mid.txs, #[trigger] mid.watch[i].key)
                is Some by {
                assert(t_find(old_state.txs, mid.watch[i].key) is Some);
            }
            assert forall|i: int|
                0 <= i < mid.txs.len() implies {
                    &&& collecting_wf(#[trigger] mid.txs[i].1)
                    &&& mid.txs[i].1.block_height == mid.txs[i].0.block_height
                    &&& mid.txs[i].1.transaction.hash == mid.txs[i].0.transaction_hash
                } by {
                if mid.txs[i] == (key, fresh) {
                } else {
                    assert(old_state.txs.contains(mid.txs[i]));
                    let m = choose|m: int|
                        0 <= m < old_state.txs.len() && old_state.txs[m] == mid.txs[i];
                }
            }
            assert(hs_wf(mid));
        }
        let mut i: usize = 0;
        while i < ids.len()
            invariant
                i <= ids@.len(),
                hs_wf(self@),
                self@.txs == mid.txs,
                t_find(self@.txs, key) is Some,
                self@.watch == w_register_all(
                    mid.watch,
                    ids@.take(i as int),
                    key,
                    block_height,
                    shard_id,
                ),
            decreases ids@.len() - i,
        {
            let wr = WatchedReceipt {
                receipt_id: ids[i],
                key,
                block_height,
                shard_id,
            };
            self.push_receipt_to_watching_list(wr);
            proof {
                lemma_w_register_all_push(
                    mid.watch,
                    ids@.take(i as int),
                    ids@[i as int],
                    key,
                    block_height,
                    shard_id,
                );
                assert(ids@.take(i + 1) =~= ids@.take(i as int).push(ids@[i as int]));
            }
            i = i + 1;
        }
        proof {
            assert(ids@.take(ids@.len() as int) =~= ids@);
        }
        key
    }

    /// Appends a receipt view to the record it was routed to. The caller
    /// routes through the watch list, so the receipt id must be watched
    /// under the given key.
    pub fn push_receipt(&mut self, key: TransactionKey, receipt: ReceiptView)
        requires
            hs_wf(old(self)@),
            w_find(old(self)@.watch, receipt@.receipt_id) is Some,
            w_find(old(self)@.watch, receipt@.receipt_id)->Some_0.key == key,
        ensures
            hs_wf(final(self)@),
            final(self)@.txs == t_attach_receipt(old(self)@.txs, key, receipt@),
            final(self)@.watch == old(self)@.watch,
    {
        let ghost old_state = self@;
        let ghost f = |c: SpecCollecting| with_receipt(c, receipt@);
        proof {
            lemma_w_find_is_elem(old_state.watch, receipt@.receipt_id);
            let m = choose|m: int|
                0 <= m < old_state.watch.len() && old_state.watch[m] == w_find(
                    old_state.watch,
                    receipt@.receipt_id,
                )->Some_0 && old_state.watch[m].receipt_id == receipt@.receipt_id;
            assert(t_find(old_state.txs, old_state.watch[m].key) is Some);
        }
        match self.find_tx_index(&key) {
            None => {
                proof {
                    assert(false);
                }
            },
            Some(i) => {
                let ghost tv = self.transactions@;
                let mut entry = self.transactions.remove(i);
                proof {
                    assert(entry == tv[i as int]);
                }
                entry.tx.receipts.push(receipt);
                let ghost ev = (entry.key, entry.tx@);
                proof {
                    assert(crate::primitives::view_receipts(entry.tx.receipts@)
                        =~= crate::primitives::view_receipts(tv[i as int].tx.receipts@).push(
                        receipt@,
                    ));
                    assert(ev == (key, f(old_state.txs[i as int].1))) by {
                        assert(entry.tx@ =~= with_receipt(old_state.txs[i as int].1, receipt@));
                    }
                }
                self.transactions.insert(i, entry);
                proof {
                    lemma_t_modify_at_index(old_state.txs, key, f, i as int);
                    assert(self.transactions@ =~= tv.update(i as int, tv[i as int]).update(
                        i as int,
                        self.transactions@[i as int],
                    ));
                    assert(self@.txs =~= old_state.txs.update(
                        i as int,
                        (key, f(old_state.txs[i as int].1)),
                    ));
                    lemma_t_modify_props(old_state.txs, key, f);
                    let new_state = self@;
                    assert forall|a: int, b: int|
                        0 <= a < b < new_state.txs.len() implies new_state.txs[a].0
                        != new_state.txs[b].0 by {}
                    assert forall|a: int|
                        0 <= a < new_state.watch.len() implies t_find(
                        new_state.txs,
                        #[trigger] new_state.watch[a].key,
                    ) is Some by {
                        assert(t_find(old_state.txs, new_state.watch[a].key) is Some);
                    }
                    assert forall|a: int, j: int|
                        0 <= a < new_state.txs.len() && 0 <= j
                            < new_state.txs[a].1.receipts.len() implies {
                            &&& w_find(
                                new_state.watch,
                                #[trigger] new_state.txs[a].1.receipts[j].receipt_id,
                            ) is Some
                            &&& w_find(
                                new_state.watch,
                                new_state.txs[a].1.receipts[j].receipt_id,
                            )->Some_0.key == new_state.txs[a].0
                        } by {
                        if a == i {
                            if j < old_state.txs[a].1.receipts.len() {
                                assert(new_state.txs[a].1.receipts[j]
                                    == old_state.txs[a].1.receipts[j]);
                            } else {
                                assert(new_state.txs[a].1.receipts[j] == receipt@);
                            }
                        } else {
                            assert(new_state.txs[a] == old_state.txs[a]);
                        }
                    }
                    assert forall|a: int|
                        0 <= a < new_state.txs.len() implies {
                            &&& collecting_wf(#[trigger] new_state.txs[a].1)
                            &&& new_state.txs[a].1.block_height == new_state.txs[a].0.block_height
                            &&& new_state.txs[a].1.transaction.hash
                                == new_state.txs[a].0.transaction_hash
                        } by {
                        if a == i {
                        } else {
                            assert(new_state.txs[a] == old_state.txs[a]);
                        }
                    }
                    assert(hs_wf(new_state));
                }
            },
        }
    }

    /// Appends an execution outcome to the record under the given key, and
    /// watches every receipt id the outcome spawned under that key.
    pub fn push_outcome(
        &mut self,
        key: TransactionKey,
        outcome: ExecutionOutcomeWithIdView,
        block_height: u64,
        shard_id: u64,
    )
        requires
            hs_wf(old(self)@),
            t_find(old(self)@.txs, key) is Some,
        ensures
            hs_wf(final(self)@),
            final(self)@.txs == t_attach_outcome(old(self)@.txs, key, outcome@),
            final(self)@.watch == w_register_all(
                old(self)@.watch,
                outcome@.outcome.receipt_ids,
                key,
                block_height,
                shard_id,
            ),
    {
        let ghost old_state = self@;
        let ghost f = |c: SpecCollecting| with_outcome(c, outcome@);
        let ids = crate::primitives::clone_hashes(&outcome.outcome.receipt_ids);
        match self.find_tx_index(&key) {
            None => {
                proof {
                    assert(false);
                }
            },
            Some(i) => {
                let ghost tv = self.transactions@;
                let mut entry = self.transactions.remove(i);
                proof {
                    assert(entry == tv[i as int]);
                }
                entry.tx.execution_outcomes.push(outcome);
                let ghost ev = (entry.key, entry.tx@);
                proof {
                    assert(crate::primitives::view_outcomes(entry.tx.execution_outcomes@)
                        =~= crate::primitives::view_outcomes(
                        tv[i as int].tx.execution_outcomes@,
                    ).push(outcome@));
                    assert(ev == (key, f(old_state.txs[i as int].1))) by {
                        assert(entry.tx@ =~= with_outcome(old_state.txs[i as int].1, outcome@));
                    }
                }
                self.transactions.insert(i, entry);
                proof {
                    lemma_t_modify_at_index(old_state.txs, key, f, i as int);
                    assert(self.transactions@ =~= tv.update(i as int, tv[i as int]).update(
                        i as int,
                        self.transactions@[i as int],
                    ));
                    assert(self@.txs =~= old_state.txs.update(
                        i as int,
                        (key, f(old_state.txs[i as int].1)),
                    ));
                    lemma_t_modify_props(old_state.txs, key, f);
                    let new_state = self@;
                    assert forall|a: int|
                        0 <= a < new_state.watch.len() implies t_find(
                        new_state.txs,
                        #[trigger] new_state.watch[a].key,
                    ) is Some by {
                        assert(t_find(old_state.txs, new_state.watch[a].key) is Some);
                    }
                    assert forall|a: int, j: int|
                        0 <= a < new_state.txs.len() && 0 <= j
                            < new_state.txs[a].1.receipts.len() implies {
                            &&& w_find(
                                new_state.watch,
                                #[trigger] new_state.txs[a].1.receipts[j].receipt_id,
                            ) is Some
                            &&& w_find(
                                new_state.watch,
                                new_state.txs[a].1.receipts[j].receipt_id,
                            )->Some_0.key == new_state.txs[a].0
                        } by {
                        if a == i {
                            assert(new_state.txs[a].1.receipts[j]
                                == old_state.txs[a].1.receipts[j]);
                        } else {
                            assert(new_state.txs[a] == old_state.txs[a]);
                        }
                    }
                    assert forall|a: int|
                        0 <= a < new_state.txs.len() implies {
                            &&& collecting_wf(#[trigger] new_state.txs[a].1)
                            &&& new_state.txs[a].1.block_height == new_state.txs[a].0.block_height
                            &&& new_state.txs[a].1.transaction.hash
                                == new_state.txs[a].0.transaction_hash
                        } by {
                        if a == i {
                            assert(new_state.txs[a].1.execution_outcomes[0]
                                == old_state.txs[a].1.execution_outcomes[0]);
                        } else {
                            assert(new_state.txs[a] == old_state.txs[a]);
                        }
                    }
                    assert(hs_wf(new_state));
                }
            },
        }
        let ghost mid = self@;
        let mut i: usize = 0;
        while i < ids.len()
            invariant
                i <= ids@.len(),
                hs_wf(self@),
                self@.txs == mid.txs,
                t_find(self@.txs, key) is Some,
                self@.watch == w_register_all(
                    mid.watch,
                    ids@.take(i as int),
                    key,
                    block_height,
                    shard_id,
                ),
            decreases ids@.len() - i,
        {
            let wr = WatchedReceipt {
                receipt_id: ids[i],
                key,
                block_height,
                shard_id,
            };
            self.push_receipt_to_watching_list(wr);
            proof {
                lemma_w_register_all_push(
                    mid.watch,
                    ids@.take(i as int),
                    ids@[i as int],
                    key,
                    block_height,
                    shard_id,
                );
                assert(ids@.take(i + 1) =~= ids@.take(i as int).push(ids@[i as int]));
            }
            i = i + 1;
        }
        proof {
            assert(ids@.take(ids@.len() as int) =~= ids@);
            assert(mid.txs == t_attach_outcome(old_state.txs, key, outcome@));
        }
    }

    /// Removes a transaction from the cache together with every watch
    /// entry bound to it; the drained entries are returned in watch-list
    /// order. Used both when a record finalizes and when the retention
    /// sweep evicts it.
    pub fn remove_transaction(&mut self, key: TransactionKey) -> (drained: Vec<WatchedReceipt>)
        requires
            hs_wf(old(self)@),
        ensures
            hs_wf(final(self)@),
            final(self)@.txs == t_remove(old(self)@.txs, key),
            final(self)@.watch == w_remove_key(old(self)@.watch, key),
            drained@ == w_drain_key(old(self)@.watch, key),
    {
        let ghost old_state = self@;
        let mut kept_watch: Vec<WatchedReceipt> = Vec::new();
        let mut drained: Vec<WatchedReceipt> = Vec::new();
        let mut i: usize = 0;
        proof {
            assert(old_state.watch.take(0) =~= Seq::<WatchedReceipt>::empty());
        }
        while i < self.receipts_watching.len()
            invariant
                i <= self.receipts_watching@.len(),
                self@ == old_state,
                kept_watch@ == w_remove_key(old_state.watch.take(i as int), key),
                drained@ == w_drain_key(old_state.watch.take(i as int), key),
            decreases self.receipts_watching@.len() - i,
        {
            let e = self.receipts_watching[i];
            proof {
                lemma_w_remove_push(old_state.watch.take(i as int), e, key);
                assert(old_state.watch.take(i + 1) =~= old_state.watch.take(i as int).push(e));
            }
            if e.key == key {
                drained.push(e);
            } else {
                kept_watch.push(e);
            }
            i = i + 1;
        }
        proof {
            assert(old_state.watch.take(old_state.watch.len() as int) =~= old_state.watch);
        }
        self.receipts_watching = kept_watch;
        let mut kept_txs: Vec<TxEntry> = Vec::new();
        let ghost mut j: int = 0;
        proof {
            assert(old_state.txs.take(0) =~= Seq::<(TransactionKey, SpecCollecting)>::empty());
            assert(t_remove(old_state.txs.take(0), key) == old_state.txs.take(0));
            assert(kept_txs@.map_values(|e: TxEntry| (e.key, e.tx@)) =~= t_remove(
                old_state.txs.take(0),
                key,
            ));
            assert(old_state.txs.skip(0) =~= old_state.txs);
            assert(self.transactions@.map_values(|e: TxEntry| (e.key, e.tx@)) == old_state.txs.skip(0));
        }
        while self.transactions.len() > 0
            invariant
                0 <= j <= old_state.txs.len(),
                self.transactions@.map_values(|e: TxEntry| (e.key, e.tx@)) == old_state.txs.skip(j),
                kept_txs@.map_values(|e: TxEntry| (e.key, e.tx@)) == t_remove(
                    old_state.txs.take(j),
                    key,
                ),
                self@.watch == w_remove_key(old_state.watch, key),
            decreases self.transactions@.len(),
        {
            proof {
                assert(self.transactions@.map_values(|e: TxEntry| (e.key, e.tx@)).len()
                    == self.transactions@.len());
                assert(old_state.txs.skip(j).len() == old_state.txs.len() - j);
                assert(j < old_state.txs.len());
                lemma_t_remove_push(
                    old_state.txs.take(j),
                    old_state.txs[j],
                    key,
                );
                assert(old_state.txs.take(j + 1) =~= old_state.txs.take(j).push(
                    old_state.txs[j],
                ));
                assert(old_state.txs.skip(j)[0] == old_state.txs[j]);
            }
            let ghost before = kept_txs@;
            let ghost remaining = self.transactions@;
            let entry = self.transactions.remove(0);
            proof {
                assert(self.transactions@.map_values(|e: TxEntry| (e.key, e.tx@)) =~= old_state
                    .txs.skip(j + 1)) by {
                    assert(self.transactions@ =~= remaining.skip(1));
                    assert(remaining.skip(1).map_values(|e: TxEntry| (e.key, e.tx@))
                        =~= remaining.map_values(|e: TxEntry| (e.key, e.tx@)).skip(1));
                    assert(old_state.txs.skip(j).skip(1) =~= old_state.txs.skip(j + 1));
                }
                assert((entry.key, entry.tx@) == old_state.txs[j]);
            }
            if !(entry.key == key) {
                kept_txs.push(entry);
                proof {
                    assert(kept_txs@.map_values(|e: TxEntry| (e.key, e.tx@)) =~= before.map_values(
                        |e: TxEntry| (e.key, e.tx@),
                    ).push((entry.key, entry.tx@)));
                }
            }
            proof {
                j = j + 1;
            }
        }
        proof {
            assert(old_state.txs.take(old_state.txs.len() as int) =~= old_state.txs);
            assert(old_state.txs.skip(j).len() == 0);
            assert(j == old_state.txs.len());
        }
        self.transactions = kept_txs;
        proof {
            let new_state = self@;
            lemma_w_remove_props(old_state.watch, key);
            lemma_t_remove_props(old_state.txs, key);
            assert forall|a: int|
                0 <= a < new_state.watch.len() implies t_find(
                new_state.txs,
                #[trigger] new_state.watch[a].key,
            ) is Some by {
                assert(old_state.watch.contains(new_state.watch[a]));
                let m = choose|m: int|
                    0 <= m < old_state.watch.len() && old_state.watch[m] == new_state.watch[a];
                assert(t_find(old_state.txs, new_state.watch[a].key) is Some);
                assert(new_state.watch[a].key != key);
            }
            assert forall|a: int, jj: int|
                0 <= a < new_state.txs.len() && 0 <= jj < new_state.txs[a].1.receipts.len()
                    implies {
                    &&& w_find(
                        new_state.watch,
                        #[trigger] new_state.txs[a].1.receipts[jj].receipt_id,
                    ) is Some
                    &&& w_find(new_state.watch, new_state.txs[a].1.receipts[jj].receipt_id)->Some_0.key
                        == new_state.txs[a].0
                } by {
                assert(old_state.txs.contains(new_state.txs[a]));
                let m = choose|m: int|
                    0 <= m < old_state.txs.len() && old_state.txs[m] == new_state.txs[a];
                assert(w_find(
                    old_state.watch,
                    new_state.txs[a].1.receipts[jj].receipt_id,
                )->Some_0.key == new_state.txs[a].0);
                assert(new_state.txs[a].0 != key);
            }
            assert forall|a: int|
                0 <= a < new_state.txs.len() implies {
                    &&& collecting_wf(#[trigger] new_state.txs[a].1)
                    &&& new_state.txs[a].1.block_height == new_state.txs[a].0.block_height
                    &&& new_state.txs[a].1.transaction.hash
                        == new_state.txs[a].0.transaction_hash
                } by {
                assert(old_state.txs.contains(new_state.txs[a]));
                let m = choose|m: int|
                    0 <= m < old_state.txs.len() && old_state.txs[m] == new_state.txs[a];
            }
            assert(hs_wf(new_state));
        }
        drained
    }
}

} // verus!

