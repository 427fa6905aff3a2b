//! Data model of the transaction-assembly pipeline: identifiers, the stream
//! views the engine reads, partially-assembled transaction records, and the
//! frozen record that is persisted once a transaction is final.

use vstd::prelude::*;

verus! {

/// Fixed-size (32 byte) identifier for transactions, receipts, blocks and
/// chunks, held as four 64-bit little-endian limbs.
#[derive(Clone, Copy, PartialEq, Eq, Structural, Hash, Debug)]
pub struct CryptoHash {
    pub w0: u64,
    pub w1: u64,
    pub w2: u64,
    pub w3: u64,
}

/// An account identifier: the textual account name, held as its bytes.
#[derive(Clone, PartialEq, Eq, Hash, Debug)]
pub struct AccountId {
    pub bytes: Vec<u8>,
}

impl View for AccountId {
    type V = Seq<u8>;

    open spec fn view(&self) -> Seq<u8> {
        self.bytes@
    }
}

impl AccountId {
    pub fn from_bytes(bytes: Vec<u8>) -> (r: AccountId)
        ensures
            r@ == bytes@,
    {
        AccountId { bytes }
    }
}

/// Identity of a transaction inside the cache: two distinct transactions can
/// share a hash across different blocks, so the pair disambiguates.
#[derive(Clone, Copy, PartialEq, Eq, Structural, Hash, Debug)]
pub struct TransactionKey {
    pub transaction_hash: CryptoHash,
    pub block_height: u64,
}

impl TransactionKey {
    /// Build the unique transaction key from the hash and the height of the
    /// block in which the transaction was observed.
    pub fn new(transaction_hash: CryptoHash, block_height: u64) -> (r: Self)
        ensures
            r.transaction_hash == transaction_hash,
            r.block_height == block_height,
    {
        Self { transaction_hash, block_height }
    }
}

/// Status of one execution outcome, as the stream reports it.
#[derive(Clone, PartialEq, Debug)]
pub enum ExecutionStatusView {
    Unknown,
    Failure(Vec<u8>),
    SuccessValue(Vec<u8>),
    SuccessReceiptId(CryptoHash),
}

pub enum SpecExecutionStatus {
    Unknown,
    Failure(Seq<u8>),
    SuccessValue(Seq<u8>),
    SuccessReceiptId(CryptoHash),
}

impl View for ExecutionStatusView {
    type V = SpecExecutionStatus;

    open spec fn view(&self) -> SpecExecutionStatus {
        match self {
            ExecutionStatusView::Unknown => SpecExecutionStatus::Unknown,
            ExecutionStatusView::Failure(e) => SpecExecutionStatus::Failure(e@),
            ExecutionStatusView::SuccessValue(v) => SpecExecutionStatus::SuccessValue(v@),
            ExecutionStatusView::SuccessReceiptId(h) => SpecExecutionStatus::SuccessReceiptId(*h),
        }
    }
}

/// Resolved end state of a transaction after following the chain of spawned
/// receipts to a leaf outcome.
#[derive(Clone, PartialEq, Debug)]
pub enum FinalExecutionStatus {
    NotStarted,
    Started,
    Failure(Vec<u8>),
    SuccessValue(Vec<u8>),
}

pub enum SpecFinalExecutionStatus {
    NotStarted,
    Started,
    Failure(Seq<u8>),
    SuccessValue(Seq<u8>),
}

impl View for FinalExecutionStatus {
    type V = SpecFinalExecutionStatus;

    open spec fn view(&self) -> SpecFinalExecutionStatus {
        match self {
            FinalExecutionStatus::NotStarted => SpecFinalExecutionStatus::NotStarted,
            FinalExecutionStatus::Started => SpecFinalExecutionStatus::Started,
            FinalExecutionStatus::Failure(e) => SpecFinalExecutionStatus::Failure(e@),
            FinalExecutionStatus::SuccessValue(v) => SpecFinalExecutionStatus::SuccessValue(v@),
        }
    }
}

/// A receipt as observed in a block.
#[derive(Clone, PartialEq, Debug)]
pub struct ReceiptView {
    pub receipt_id: CryptoHash,
    pub priority: u64,
}

#[verifier::ext_equal]
pub ghost struct SpecReceiptView {
    pub receipt_id: CryptoHash,
    pub priority: u64,
}

impl View for ReceiptView {
    type V = SpecReceiptView;

    open spec fn view(&self) -> SpecReceiptView {
        SpecReceiptView { receipt_id: self.receipt_id, priority: self.priority }
    }
}

/// The result of executing one transaction or one receipt: its status, the
/// receipt ids it spawned, and the gas and tokens it burnt.
#[derive(Clone, PartialEq, Debug)]
pub struct ExecutionOutcomeView {
    pub status: ExecutionStatusView,
    pub receipt_ids: Vec<CryptoHash>,
    pub gas_burnt: u64,
    pub tokens_burnt: u64,
}

#[verifier::ext_equal]
pub ghost struct SpecOutcomeView {
    pub status: SpecExecutionStatus,
    pub receipt_ids: Seq<CryptoHash>,
    pub gas_burnt: u64,
    pub tokens_burnt: u64,
}

impl View for ExecutionOutcomeView {
    type V = SpecOutcomeView;

    open spec fn view(&self) -> SpecOutcomeView {
        SpecOutcomeView {
            status: self.status@,
            receipt_ids: self.receipt_ids@,
            gas_burnt: self.gas_burnt,
            tokens_burnt: self.tokens_burnt,
        }
    }
}

/// An execution outcome together with the hash it resolves.
#[derive(Clone, PartialEq, Debug)]
pub struct ExecutionOutcomeWithIdView {
    pub id: CryptoHash,
    pub outcome: ExecutionOutcomeView,
}

#[verifier::ext_equal]
pub ghost struct SpecOutcomeWithId {
    pub id: CryptoHash,
    pub outcome: SpecOutcomeView,
}

impl View for ExecutionOutcomeWithIdView {
    type V = SpecOutcomeWithId;

    open spec fn view(&self) -> SpecOutcomeWithId {
        SpecOutcomeWithId { id: self.id, outcome: self.outcome@ }
    }
}

/// The chain's record of an originally signed transaction; the engine reads
/// the hash, the signer and the receiver.
#[derive(Clone, PartialEq, Debug)]
pub struct SignedTransactionView {
    pub hash: CryptoHash,
    pub signer_id: AccountId,
    pub receiver_id: AccountId,
    pub priority_fee: u64,
    pub nonce: u64,
}

#[verifier::ext_equal]
pub ghost struct SpecTransactionView {
    pub hash: CryptoHash,
    pub signer_id: Seq<u8>,
    pub receiver_id: Seq<u8>,
    pub priority_fee: u64,
    pub nonce: u64,
}

impl View for SignedTransactionView {
    type V = SpecTransactionView;

    open spec fn view(&self) -> SpecTransactionView {
        SpecTransactionView {
            hash: self.hash,
            signer_id: self.signer_id@,
            receiver_id: self.receiver_id@,
            priority_fee: self.priority_fee,
            nonce: self.nonce,
        }
    }
}

/// An execution outcome paired with the receipt it executed.
#[derive(Clone, PartialEq, Debug)]
pub struct ExecutionOutcomeWithReceipt {
    pub execution_outcome: ExecutionOutcomeWithIdView,
    pub receipt: ReceiptView,
}

/// A transaction as indexed in a block: the transaction view together with
/// its own execution outcome.
#[derive(Clone, PartialEq, Debug)]
pub struct IndexerTransactionWithOutcome {
    pub transaction: SignedTransactionView,
    pub outcome: ExecutionOutcomeWithIdView,
}

#[verifier::ext_equal]
pub ghost struct SpecIndexerTransaction {
    pub transaction: SpecTransactionView,
    pub outcome: SpecOutcomeWithId,
}

impl View for IndexerTransactionWithOutcome {
    type V = SpecIndexerTransaction;

    open spec fn view(&self) -> SpecIndexerTransaction {
        SpecIndexerTransaction { transaction: self.transaction@, outcome: self.outcome@ }
    }
}

pub open spec fn view_receipts(v: Seq<ReceiptView>) -> Seq<SpecReceiptView> {
    v.map_values(|r: ReceiptView| r@)
}

pub open spec fn view_outcomes(v: Seq<ExecutionOutcomeWithIdView>) -> Seq<SpecOutcomeWithId> {
    v.map_values(|o: ExecutionOutcomeWithIdView| o@)
}

/// A partially assembled transaction: the original view, the receipts and
/// outcomes observed so far (the first outcome is the transaction's own),
/// and the height of the block the transaction was observed in.
#[derive(Clone, PartialEq, Debug)]
pub struct CollectingTransactionDetails {
    pub transaction: SignedTransactionView,
    pub receipts: Vec<ReceiptView>,
    pub execution_outcomes: Vec<ExecutionOutcomeWithIdView>,
    pub block_height: u64,
}

#[verifier::ext_equal]
pub ghost struct SpecCollecting {
    pub transaction: SpecTransactionView,
    pub receipts: Seq<SpecReceiptView>,
    pub execution_outcomes: Seq<SpecOutcomeWithId>,
    pub block_height: u64,
}

impl View for CollectingTransactionDetails {
    type V = SpecCollecting;

    open spec fn view(&self) -> SpecCollecting {
        SpecCollecting {
            transaction: self.transaction@,
            receipts: view_receipts(self.receipts@),
            execution_outcomes: view_outcomes(self.execution_outcomes@),
            block_height: self.block_height,
        }
    }
}

/// A collecting entry is well formed when its first outcome is the
/// transaction's own outcome.
pub open spec fn collecting_wf(c: SpecCollecting) -> bool {
    &&& c.execution_outcomes.len() >= 1
    &&& c.execution_outcomes[0].id == c.transaction.hash
}

/// The frozen, persisted form of a finalized transaction.
#[derive(Clone, PartialEq, Debug)]
pub struct TransactionDetails {
    pub receipts: Vec<ReceiptView>,
    pub receipts_outcome: Vec<ExecutionOutcomeWithIdView>,
    pub status: FinalExecutionStatus,
    pub transaction: SignedTransactionView,
    pub transaction_outcome: ExecutionOutcomeWithIdView,
}

#[verifier::ext_equal]
pub ghost struct SpecTransactionDetails {
    pub receipts: Seq<SpecReceiptView>,
    pub receipts_outcome: Seq<SpecOutcomeWithId>,
    pub status: SpecFinalExecutionStatus,
    pub transaction: SpecTransactionView,
    pub transaction_outcome: SpecOutcomeWithId,
}

impl View for TransactionDetails {
    type V = SpecTransactionDetails;

    open spec fn view(&self) -> SpecTransactionDetails {
        SpecTransactionDetails {
            receipts: view_receipts(self.receipts@),
            receipts_outcome: view_outcomes(self.receipts_outcome@),
            status: self.status@,
            transaction: self.transaction@,
            transaction_outcome: self.transaction_outcome@,
        }
    }
}

/// The full final-execution view handed to external consumers.
#[derive(Clone, PartialEq, Debug)]
pub struct FinalExecutionOutcomeView {
    pub status: FinalExecutionStatus,
    pub transaction: SignedTransactionView,
    pub transaction_outcome: ExecutionOutcomeWithIdView,
    pub receipts_outcome: Vec<ExecutionOutcomeWithIdView>,
}

/// The final-execution view together with the surviving receipts.
#[derive(Clone, PartialEq, Debug)]
pub struct FinalExecutionOutcomeWithReceiptView {
    pub final_outcome: FinalExecutionOutcomeView,
    pub receipts: Vec<ReceiptView>,
}

// ---------------------------------------------------------------------------
// Small verified copy helpers: clones with a contract.
// ---------------------------------------------------------------------------

pub fn clone_bytes(v: &Vec<u8>) -> (r: Vec<u8>)
    ensures
        r@ == v@,
{
    let mut out: Vec<u8> = Vec::new();
    let mut i: usize = 0;
    while i < v.len()
        invariant
            i <= v.len(),
            out@ == v@.subrange(0, i as int),
        decreases v.len() - i,
    {
        out.push(v[i]);
        i = i + 1;
    }
    proof {
        assert(out@ =~= v@);
    }
    out
}

/// Byte-vector equality, decided element by element.
pub fn bytes_eq(a: &Vec<u8>, b: &Vec<u8>) -> (r: bool)
    ensures
        r == (a@ == b@),
{
    if a.len() != b.len() {
        proof {
            assert(a@.len() != b@.len());
        }
        return false;
    }
    let mut i: usize = 0;
    while i < a.len()
        invariant
            i <= a.len(),
            a@.len() == b@.len(),
            forall|j: int| 0 <= j < i ==> a@[j] == b@[j],
        decreases a.len() - i,
    {
        if a[i] != b[i] {
            return false;
        }
        i = i + 1;
    }
    proof {
        assert(a@ =~= b@);
    }
    true
}

pub fn clone_account(a: &AccountId) -> (r: AccountId)
    ensures
        r@ == a@,
{
    AccountId { bytes: clone_bytes(&a.bytes) }
}

pub fn clone_status(s: &ExecutionStatusView) -> (r: ExecutionStatusView)
    ensures
        r@ == s@,
{
    match s {
        ExecutionStatusView::Unknown => ExecutionStatusView::Unknown,
        ExecutionStatusView::Failure(e) => ExecutionStatusView::Failure(clone_bytes(e)),
        ExecutionStatusView::SuccessValue(v) => ExecutionStatusView::SuccessValue(clone_bytes(v)),
        ExecutionStatusView::SuccessReceiptId(h) => ExecutionStatusView::SuccessReceiptId(*h),
    }
}

pub fn clone_final_status(s: &FinalExecutionStatus) -> (r: FinalExecutionStatus)
    ensures
        r@ == s@,
{
    match s {
        FinalExecutionStatus::NotStarted => FinalExecutionStatus::NotStarted,
        FinalExecutionStatus::Started => FinalExecutionStatus::Started,
        FinalExecutionStatus::Failure(e) => FinalExecutionStatus::Failure(clone_bytes(e)),
        FinalExecutionStatus::SuccessValue(v) => FinalExecutionStatus::SuccessValue(clone_bytes(v)),
    }
}

pub fn clone_hashes(v: &Vec<CryptoHash>) -> (r: Vec<CryptoHash>)
    ensures
        r@ == v@,
{
    let mut out: Vec<CryptoHash> = Vec::new();
    let mut i: usize = 0;
    while i < v.len()
        invariant
            i <= v.len(),
            out@ == v@.subrange(0, i as int),
        decreases v.len() - i,
    {
        out.push(v[i]);
        i = i + 1;
    }
    proof {
        assert(out@ =~= v@);
    }
    out
}

pub fn clone_receipt(r: &ReceiptView) -> (out: ReceiptView)
    ensures
        out@ == r@,
{
    ReceiptView { receipt_id: r.receipt_id, priority: r.priority }
}

pub fn clone_receipts(v: &Vec<ReceiptView>) -> (r: Vec<ReceiptView>)
    ensures
        view_receipts(r@) == view_receipts(v@),
        r@.len() == v@.len(),
{
    let mut out: Vec<ReceiptView> = Vec::new();
    let mut i: usize = 0;
    while i < v.len()
        invariant
            i <= v.len(),
            out@.len() == i,
            forall|j: int| 0 <= j < i ==> out@[j]@ == v@[j]@,
        decreases v.len() - i,
    {
        out.push(clone_receipt(&v[i]));
        i = i + 1;
    }
    proof {
        assert(view_receipts(out@) =~= view_receipts(v@));
    }
    out
}

pub fn clone_outcome_view(o: &ExecutionOutcomeView) -> (r: ExecutionOutcomeView)
    ensures
        r@ == o@,
{
    ExecutionOutcomeView {
        status: clone_status(&o.status),
        receipt_ids: clone_hashes(&o.receipt_ids),
        gas_burnt: o.gas_burnt,
        tokens_burnt: o.tokens_burnt,
    }
}

pub fn clone_outcome(o: &ExecutionOutcomeWithIdView) -> (r: ExecutionOutcomeWithIdView)
    ensures
        r@ == o@,
{
    ExecutionOutcomeWithIdView { id: o.id, outcome: clone_outcome_view(&o.outcome) }
}

pub fn clone_outcomes(v: &Vec<ExecutionOutcomeWithIdView>) -> (r: Vec<ExecutionOutcomeWithIdView>)
    ensures
        view_outcomes(r@) == view_outcomes(v@),
        r@.len() == v@.len(),
{
    let mut out: Vec<ExecutionOutcomeWithIdView> = Vec::new();
    let mut i: usize = 0;
    while i < v.len()
        invariant
            i <= v.len(),
            out@.len() == i,
            forall|j: int| 0 <= j < i ==> out@[j]@ == v@[j]@,
        decreases v.len() - i,
    {
        out.push(clone_outcome(&v[i]));
        i = i + 1;
    }
    proof {
        assert(view_outcomes(out@) =~= view_outcomes(v@));
    }
    out
}

pub fn clone_transaction(t: &SignedTransactionView) -> (r: SignedTransactionView)
    ensures
        r@ == t@,
{
    SignedTransactionView {
        hash: t.hash,
        signer_id: clone_account(&t.signer_id),
        receiver_id: clone_account(&t.receiver_id),
        priority_fee: t.priority_fee,
        nonce: t.nonce,
    }
}

// ---------------------------------------------------------------------------
// The finality walk.
// ---------------------------------------------------------------------------

/// First outcome in the list whose id equals `id`, if any.
pub open spec fn spec_lookup_outcome(outs: Seq<SpecOutcomeWithId>, id: CryptoHash) -> Option<
    SpecOutcomeView,
>
    decreases outs.len(),
{
    if outs.len() == 0 {
        None
    } else if outs[0].id == id {
        Some(outs[0].outcome)
    } else {
        spec_lookup_outcome(outs.skip(1), id)
    }
}

/// The walk over the outcome chain: start at `id`, follow each
/// `SuccessReceiptId` to the outcome it names. `Unknown` resolves to
/// `NotStarted` when the record holds exactly one outcome (`total == 1`),
/// else `Started`. `follows` bounds the number of links followed: a chain
/// longer than the number of outcomes must revisit an outcome and therefore
/// never concludes, so the bound loses nothing.
pub open spec fn spec_walk(
    outs: Seq<SpecOutcomeWithId>,
    id: CryptoHash,
    follows: nat,
    total: nat,
) -> Option<SpecFinalExecutionStatus>
    decreases follows,
{
    match spec_lookup_outcome(outs, id) {
        None => None,
        Some(o) => match o.status {
            SpecExecutionStatus::Unknown => Some(
                if total == 1 {
                    SpecFinalExecutionStatus::NotStarted
                } else {
                    SpecFinalExecutionStatus::Started
                },
            ),
            SpecExecutionStatus::Failure(e) => Some(SpecFinalExecutionStatus::Failure(e)),
            SpecExecutionStatus::SuccessValue(v) => Some(SpecFinalExecutionStatus::SuccessValue(v)),
            SpecExecutionStatus::SuccessReceiptId(next) => if follows == 0 {
                None
            } else {
                spec_walk(outs, next, (follows - 1) as nat, total)
            },
        },
    }
}

/// The resolved final status of a collecting record, if the walk concludes.
pub open spec fn spec_final_status(c: SpecCollecting) -> Option<SpecFinalExecutionStatus> {
    spec_walk(c.execution_outcomes, c.transaction.hash, c.execution_outcomes.len(), c.execution_outcomes.len())
}

/// A status on which a record may be persisted: the walk reached a leaf that
/// was actually executed.
pub open spec fn spec_is_definitive(s: SpecFinalExecutionStatus) -> bool {
    match s {
        SpecFinalExecutionStatus::Failure(_) => true,
        SpecFinalExecutionStatus::SuccessValue(_) => true,
        SpecFinalExecutionStatus::NotStarted => false,
        SpecFinalExecutionStatus::Started => false,
    }
}

/// The frozen record of a collecting entry whose walk concluded.
pub open spec fn spec_freeze(c: SpecCollecting) -> SpecTransactionDetails
    recommends
        spec_final_status(c) is Some,
        c.execution_outcomes.len() >= 1,
{
    SpecTransactionDetails {
        receipts: c.receipts,
        receipts_outcome: c.execution_outcomes.skip(1),
        status: spec_final_status(c)->Some_0,
        transaction: c.transaction,
        transaction_outcome: c.execution_outcomes[0],
    }
}

proof fn lemma_lookup_skip(outs: Seq<SpecOutcomeWithId>, id: CryptoHash, i: int)
    requires
        0 <= i <= outs.len(),
        forall|j: int| 0 <= j < i ==> outs[j].id != id,
    ensures
        spec_lookup_outcome(outs, id) == spec_lookup_outcome(outs.skip(i), id),
    decreases i,
{
    if i > 0 {
        assert(outs.skip(1).skip(i - 1) =~= outs.skip(i));
        lemma_lookup_skip(outs.skip(1), id, i - 1);
    } else {
        assert(outs.skip(0) =~= outs);
    }
}

/// If a lookup succeeds the list is not empty.
proof fn lemma_lookup_some_nonempty(outs: Seq<SpecOutcomeWithId>, id: CryptoHash)
    requires
        spec_lookup_outcome(outs, id) is Some,
    ensures
        outs.len() >= 1,
{
}

impl CollectingTransactionDetails {
    /// Seed a fresh collecting record from an indexed transaction: the
    /// outcome list starts with the transaction's own outcome.
    pub fn from_indexer_tx(transaction: IndexerTransactionWithOutcome, block_height: u64) -> (r:
        Self)
        ensures
            r@.transaction == transaction@.transaction,
            r@.receipts == Seq::<SpecReceiptView>::empty(),
            r@.execution_outcomes == seq![transaction@.outcome],
            r@.block_height == block_height,
    {
        let r = Self {
            transaction: transaction.transaction,
            receipts: vec![],
            execution_outcomes: vec![transaction.outcome],
            block_height,
        };
        proof {
            assert(r@.receipts =~= Seq::<SpecReceiptView>::empty());
            assert(r@.execution_outcomes =~= seq![transaction@.outcome]);
        }
        r
    }

    /// The cache key of this record: transaction hash plus anchor height,
    /// which disambiguates hash collisions across blocks.
    pub fn transaction_key(&self) -> (r: TransactionKey)
        ensures
            r.transaction_hash == self@.transaction.hash,
            r.block_height == self@.block_height,
    {
        TransactionKey::new(self.transaction.hash, self.block_height)
    }

    /// Index of the first outcome that resolves `id`, if any.
    fn find_outcome(&self, id: CryptoHash) -> (r: Option<usize>)
        ensures
            match r {
                Some(i) => {
                    &&& i < self.execution_outcomes@.len()
                    &&& self.execution_outcomes@[i as int]@.id == id
                    &&& spec_lookup_outcome(self@.execution_outcomes, id) == Some(
                        self.execution_outcomes@[i as int]@.outcome,
                    )
                },
                None => spec_lookup_outcome(self@.execution_outcomes, id) is None,
            },
    {
        let ghost outs = self@.execution_outcomes;
        let mut i: usize = 0;
        while i < self.execution_outcomes.len()
            invariant
                i <= self.execution_outcomes@.len(),
                outs == self@.execution_outcomes,
                outs.len() == self.execution_outcomes@.len(),
                forall|j: int| 0 <= j < i ==> outs[j].id != id,
            decreases self.execution_outcomes@.len() - i,
        {
            if self.execution_outcomes[i].id == id {
                proof {
                    lemma_lookup_skip(outs, id, i as int);
                    assert(outs.skip(i as int)[0] == outs[i as int]);
                }
                return Some(i);
            }
            i = i + 1;
        }
        proof {
            lemma_lookup_skip(outs, id, outs.len() as int);
            assert(outs.skip(outs.len() as int).len() == 0);
        }
        None
    }

    /// Resolve the final status by walking the outcome chain, following each
    /// `SuccessReceiptId` link. Returns `None` when the chain does not yet
    /// conclude inside this record.
    pub fn final_status(&self) -> (r: Option<FinalExecutionStatus>)
        ensures
            match r {
                Some(s) => spec_final_status(self@) == Some(s@),
                None => spec_final_status(self@) is None,
            },
    {
        let ghost outs = self@.execution_outcomes;
        let ghost total = outs.len();
        let num_outcomes = self.execution_outcomes.len();
        let mut looking_for_id = self.transaction.hash;
        let mut follows = num_outcomes;
        loop
            invariant
                outs == self@.execution_outcomes,
                total == outs.len(),
                num_outcomes == self.execution_outcomes@.len(),
                follows <= num_outcomes,
                spec_walk(outs, self@.transaction.hash, total, total) == spec_walk(
                    outs,
                    looking_for_id,
                    follows as nat,
                    total,
                ),
            decreases follows + 1,
        {
            match self.find_outcome(looking_for_id) {
                None => {
                    return None;
                },
                Some(i) => {
                    match &self.execution_outcomes[i].outcome.status {
                        ExecutionStatusView::Unknown => {
                            if num_outcomes == 1 {
                                return Some(FinalExecutionStatus::NotStarted);
                            } else {
                                return Some(FinalExecutionStatus::Started);
                            }
                        },
                        ExecutionStatusView::Failure(e) => {
                            return Some(FinalExecutionStatus::Failure(clone_bytes(e)));
                        },
                        ExecutionStatusView::SuccessValue(v) => {
                            return Some(FinalExecutionStatus::SuccessValue(clone_bytes(v)));
                        },
                        ExecutionStatusView::SuccessReceiptId(next) => {
                            if follows == 0 {
                                return None;
                            }
                            looking_for_id = *next;
                            follows = follows - 1;
                        },
                    }
                },
            }
        }
    }

    /// Freeze the record: the first outcome becomes the transaction outcome,
    /// the rest become the receipt outcomes, and the status is the walk's
    /// result. Fails exactly when the walk does not conclude.
    pub fn to_final_transaction_result(&self) -> (r: Result<TransactionDetails, AssemblyError>)
        ensures
            match r {
                Ok(d) => {
                    &&& spec_final_status(self@) is Some
                    &&& d@ == spec_freeze(self@)
                },
                Err(e) => {
                    &&& spec_final_status(self@) is None
                    &&& e == AssemblyError::NotFinal
                },
            },
    {
        match self.final_status() {
            None => Err(AssemblyError::NotFinal),
            Some(status) => {
                proof {
                    lemma_walk_some_nonempty(
                        self@.execution_outcomes,
                        self@.transaction.hash,
                        self@.execution_outcomes.len(),
                        self@.execution_outcomes.len(),
                    );
                }
                let transaction_outcome = clone_outcome(&self.execution_outcomes[0]);
                let mut receipts_outcome: Vec<ExecutionOutcomeWithIdView> = Vec::new();
                let mut i: usize = 1;
                while i < self.execution_outcomes.len()
                    invariant
                        1 <= i <= self.execution_outcomes@.len(),
                        receipts_outcome@.len() == i - 1,
                        forall|j: int|
                            0 <= j < i - 1 ==> receipts_outcome@[j]@
                                == self.execution_outcomes@[j + 1]@,
                    decreases self.execution_outcomes@.len() - i,
                {
                    receipts_outcome.push(clone_outcome(&self.execution_outcomes[i]));
                    i = i + 1;
                }
                proof {
                    assert(view_outcomes(receipts_outcome@) =~= self@.execution_outcomes.skip(1));
                }
                let d = TransactionDetails {
                    receipts: clone_receipts(&self.receipts),
                    receipts_outcome,
                    status,
                    transaction: clone_transaction(&self.transaction),
                    transaction_outcome,
                };
                Ok(d)
            },
        }
    }

    /// Freeze with a fallback: a record whose walk does not conclude is
    /// stamped `NotStarted`.
    pub fn from_collecting(tx: &CollectingTransactionDetails) -> (r: TransactionDetails)
        requires
            tx@.execution_outcomes.len() >= 1,
        ensures
            r@.receipts == tx@.receipts,
            r@.receipts_outcome == tx@.execution_outcomes.skip(1),
            r@.transaction == tx@.transaction,
            r@.transaction_outcome == tx@.execution_outcomes[0],
            r@.status == (match spec_final_status(tx@) {
                Some(s) => s,
                None => SpecFinalExecutionStatus::NotStarted,
            }),
    {
        let status = match tx.final_status() {
            Some(s) => s,
            None => FinalExecutionStatus::NotStarted,
        };
        let transaction_outcome = clone_outcome(&tx.execution_outcomes[0]);
        let mut receipts_outcome: Vec<ExecutionOutcomeWithIdView> = Vec::new();
        let mut i: usize = 1;
        while i < tx.execution_outcomes.len()
            invariant
                1 <= i <= tx.execution_outcomes@.len(),
                receipts_outcome@.len() == i - 1,
                forall|j: int|
                    0 <= j < i - 1 ==> receipts_outcome@[j]@ == tx.execution_outcomes@[j + 1]@,
            decreases tx.execution_outcomes@.len() - i,
        {
            receipts_outcome.push(clone_outcome(&tx.execution_outcomes[i]));
            i = i + 1;
        }
        proof {
            assert(view_outcomes(receipts_outcome@) =~= tx@.execution_outcomes.skip(1));
        }
        TransactionDetails {
            receipts: clone_receipts(&tx.receipts),
            receipts_outcome,
            status,
            transaction: clone_transaction(&tx.transaction),
            transaction_outcome,
        }
    }
}

/// A walk that concludes found at least one outcome.
proof fn lemma_walk_some_nonempty(
    outs: Seq<SpecOutcomeWithId>,
    id: CryptoHash,
    follows: nat,
    total: nat,
)
    requires
        spec_walk(outs, id, follows, total) is Some,
    ensures
        outs.len() >= 1,
    decreases follows,
{
    match spec_lookup_outcome(outs, id) {
        None => {},
        Some(o) => {
            lemma_lookup_some_nonempty(outs, id);
        },
    }
}

/// A chain of two spawned receipts resolves to its leaf: when the outcome
/// list holds exactly the transaction's own outcome pointing at a first
/// receipt, that receipt's outcome pointing at a second, and the second's
/// failure — with the three resolved hashes pairwise distinct — the walk
/// concludes in that failure.
pub proof fn lemma_walk_two_link_chain(
    c: SpecCollecting,
    r1: CryptoHash,
    r2: CryptoHash,
    e: Seq<u8>,
)
    requires
        c.execution_outcomes.len() == 3,
        c.execution_outcomes[0].id == c.transaction.hash,
        c.execution_outcomes[0].outcome.status == SpecExecutionStatus::SuccessReceiptId(r1),
        c.execution_outcomes[1].id == r1,
        c.execution_outcomes[1].outcome.status == SpecExecutionStatus::SuccessReceiptId(r2),
        c.execution_outcomes[2].id == r2,
        c.execution_outcomes[2].outcome.status == SpecExecutionStatus::Failure(e),
        c.transaction.hash != r1,
        c.transaction.hash != r2,
        r1 != r2,
    ensures
        spec_final_status(c) == Some(SpecFinalExecutionStatus::Failure(e)),
{
    reveal_with_fuel(spec_walk, 4);
    reveal_with_fuel(spec_lookup_outcome, 4);
    let outs = c.execution_outcomes;
    let t = c.transaction.hash;
    assert(outs.skip(1).len() == 2);
    assert(outs.skip(1)[0] == outs[1]);
    assert(outs.skip(1).skip(1) =~= outs.skip(2));
    assert(outs.skip(2).len() == 1);
    assert(outs.skip(2)[0] == outs[2]);
    assert(spec_lookup_outcome(outs, t) == Some(outs[0].outcome));
    assert(spec_lookup_outcome(outs, r1) == spec_lookup_outcome(outs.skip(1), r1));
    assert(spec_lookup_outcome(outs, r1) == Some(outs[1].outcome));
    assert(spec_lookup_outcome(outs, r2) == Some(outs[2].outcome));
    assert(spec_walk(outs, t, 3, 3) == spec_walk(outs, r1, 2, 3));
    assert(spec_walk(outs, r1, 2, 3) == spec_walk(outs, r2, 1, 3));
    assert(spec_walk(outs, r2, 1, 3) == Some(SpecFinalExecutionStatus::Failure(e)));
}

/// A self-transfer resolves and its local receipt is filtered: the
/// transaction's own outcome spawns one receipt, that receipt succeeds
/// with a value, and the attached receipt view carries the spawned id.
/// The frozen record then carries the success value, and — when the
/// signer and receiver coincide — the with-receipts projection drops the
/// one receipt.
pub proof fn lemma_self_transfer_projection(c: SpecCollecting, r1: CryptoHash, v: Seq<u8>)
    requires
        c.execution_outcomes.len() == 2,
        c.execution_outcomes[0].id == c.transaction.hash,
        c.execution_outcomes[0].outcome.status == SpecExecutionStatus::SuccessReceiptId(r1),
        c.execution_outcomes[0].outcome.receipt_ids == seq![r1],
        c.execution_outcomes[1].id == r1,
        c.execution_outcomes[1].outcome.status == SpecExecutionStatus::SuccessValue(v),
        c.transaction.hash != r1,
        c.receipts.len() == 1,
        c.receipts[0].receipt_id == r1,
    ensures
        spec_final_status(c) == Some(SpecFinalExecutionStatus::SuccessValue(v)),
        spec_freeze(c).status == SpecFinalExecutionStatus::SuccessValue(v),
        spec_freeze(c).receipts == c.receipts,
        spec_freeze(c).receipts_outcome == seq![c.execution_outcomes[1]],
        spec_freeze(c).transaction_outcome == c.execution_outcomes[0],
        c.transaction.signer_id == c.transaction.receiver_id ==> spec_filtered_receipts(
            spec_freeze(c),
        ) == Seq::<SpecReceiptView>::empty(),
        c.transaction.signer_id != c.transaction.receiver_id ==> spec_filtered_receipts(
            spec_freeze(c),
        ) == c.receipts,
{
    reveal_with_fuel(spec_walk, 3);
    reveal_with_fuel(spec_lookup_outcome, 3);
    let outs = c.execution_outcomes;
    let t = c.transaction.hash;
    assert(outs.skip(1).len() == 1);
    assert(outs.skip(1)[0] == outs[1]);
    assert(spec_lookup_outcome(outs, t) == Some(outs[0].outcome));
    assert(spec_lookup_outcome(outs, r1) == Some(outs[1].outcome));
    assert(spec_walk(outs, t, 2, 2) == spec_walk(outs, r1, 1, 2));
    assert(spec_walk(outs, r1, 1, 2) == Some(SpecFinalExecutionStatus::SuccessValue(v)));
    assert(spec_freeze(c).receipts_outcome =~= seq![outs[1]]);
    let d = spec_freeze(c);
    assert(d.transaction_outcome.outcome.receipt_ids[0] == r1);
    if c.transaction.signer_id == c.transaction.receiver_id {
        reveal(Seq::filter);
        let pred = |r: SpecReceiptView| r.receipt_id != d.transaction_outcome.outcome.receipt_ids[0];
        assert(c.receipts.drop_last() =~= Seq::<SpecReceiptView>::empty());
        assert(c.receipts.last() == c.receipts[0]);
        assert(!pred(c.receipts[0]));
        assert(Seq::<SpecReceiptView>::empty().filter(pred) =~= Seq::<SpecReceiptView>::empty());
        assert(c.receipts.filter(pred) =~= Seq::<SpecReceiptView>::empty());
    }
}

/// Errors of the assembly layer.
#[derive(Clone, Copy, PartialEq, Eq, Structural, Debug)]
pub enum AssemblyError {
    /// The outcome chain does not yet resolve to a final status.
    NotFinal,
}

// ---------------------------------------------------------------------------
// Projections for external consumers.
// ---------------------------------------------------------------------------

/// The receipts that survive the local-receipt filter: when the signer and
/// the receiver coincide, the receipt the transaction was converted into
/// (named by the first spawned receipt id of the transaction outcome) is
/// omitted; otherwise nothing is omitted.
pub open spec fn spec_filtered_receipts(d: SpecTransactionDetails) -> Seq<SpecReceiptView> {
    if d.transaction.signer_id == d.transaction.receiver_id {
        d.receipts.filter(
            |r: SpecReceiptView| r.receipt_id != d.transaction_outcome.outcome.receipt_ids[0],
        )
    } else {
        d.receipts
    }
}

impl TransactionDetails {
    /// The final-execution view: status, transaction, its outcome, and the
    /// receipt outcomes.
    pub fn to_final_execution_outcome(&self) -> (r: FinalExecutionOutcomeView)
        ensures
            r.status@ == self@.status,
            r.transaction@ == self@.transaction,
            r.transaction_outcome@ == self@.transaction_outcome,
            view_outcomes(r.receipts_outcome@) == self@.receipts_outcome,
    {
        FinalExecutionOutcomeView {
            status: clone_final_status(&self.status),
            transaction: clone_transaction(&self.transaction),
            transaction_outcome: clone_outcome(&self.transaction_outcome),
            receipts_outcome: clone_outcomes(&self.receipts_outcome),
        }
    }

    /// The final-execution view with receipts, after the local-receipt
    /// filter.
    pub fn to_final_execution_outcome_with_receipts(&self) -> (r:
        FinalExecutionOutcomeWithReceiptView)
        requires
            self@.transaction.signer_id == self@.transaction.receiver_id
                ==> self@.transaction_outcome.outcome.receipt_ids.len() >= 1,
        ensures
            r.final_outcome.status@ == self@.status,
            r.final_outcome.transaction@ == self@.transaction,
            r.final_outcome.transaction_outcome@ == self@.transaction_outcome,
            view_outcomes(r.final_outcome.receipts_outcome@) == self@.receipts_outcome,
            view_receipts(r.receipts@) == spec_filtered_receipts(self@),
    {
        let final_outcome = self.to_final_execution_outcome();
        let is_local = bytes_eq(&self.transaction.signer_id.bytes, &self.transaction.receiver_id.bytes);
        let mut receipts: Vec<ReceiptView> = Vec::new();
        if is_local {
            let local_id = self.transaction_outcome.outcome.receipt_ids[0];
            let ghost pred = |r: SpecReceiptView|
                r.receipt_id != self@.transaction_outcome.outcome.receipt_ids[0];
            let mut i: usize = 0;
            proof {
                assert(view_receipts(self.receipts@).take(0) =~= Seq::<SpecReceiptView>::empty());
                assert(Seq::<SpecReceiptView>::empty().filter(pred) =~= Seq::<
                    SpecReceiptView,
                >::empty());
            }
            while i < self.receipts.len()
                invariant
                    i <= self.receipts@.len(),
                    local_id == self@.transaction_outcome.outcome.receipt_ids[0],
                    pred == (|r: SpecReceiptView|
                        r.receipt_id != self@.transaction_outcome.outcome.receipt_ids[0]),
                    view_receipts(receipts@) == view_receipts(self.receipts@).take(i as int).filter(
                        pred,
                    ),
                decreases self.receipts@.len() - i,
            {
                let ghost taken = view_receipts(self.receipts@).take(i as int);
                let ghost taken1 = view_receipts(self.receipts@).take(i + 1);
                proof {
                    assert(taken1.drop_last() =~= taken);
                    assert(taken1.last() == self.receipts@[i as int]@);
                    reveal(Seq::filter);
                    assert(taken1.filter(pred) == if pred(self.receipts@[i as int]@) {
                        taken.filter(pred).push(self.receipts@[i as int]@)
                    } else {
                        taken.filter(pred)
                    });
                }
                if self.receipts[i].receipt_id != local_id {
                    receipts.push(clone_receipt(&self.receipts[i]));
                    proof {
                        assert(view_receipts(receipts@) =~= taken1.filter(pred));
                    }
                } else {
                    proof {
                        assert(!pred(self.receipts@[i as int]@));
                        assert(view_receipts(receipts@) =~= taken1.filter(pred));
                    }
                }
                i = i + 1;
            }
            proof {
                assert(view_receipts(self.receipts@).take(self.receipts@.len() as int)
                    =~= view_receipts(self.receipts@));
                assert(view_receipts(receipts@) == spec_filtered_receipts(self@));
            }
        } else {
            let cloned = clone_receipts(&self.receipts);
            receipts = cloned;
            proof {
                assert(view_receipts(receipts@) == spec_filtered_receipts(self@));
            }
        }
        FinalExecutionOutcomeWithReceiptView { final_outcome, receipts }
    }
}

// ---------------------------------------------------------------------------
// Reader-side records.
// ---------------------------------------------------------------------------

/// A stored state key and value, as the reader service returns them.
pub type StateKey = Vec<u8>;

pub type StateValue = Vec<u8>;

/// A block height paired with the shard the row was stored for.
#[derive(Clone, Copy, PartialEq, Eq, Structural, Debug)]
pub struct BlockHeightShardId(pub u64, pub u64);

/// A value read back from storage together with the block at which it was
/// last updated.
#[derive(Clone, PartialEq, Debug)]
pub struct QueryData<T> {
    pub data: T,
    pub block_height: u64,
    pub block_hash: CryptoHash,
}

/// The reverse-index row: a receipt id resolved to its parent transaction.
#[derive(Clone, PartialEq, Debug)]
pub struct ReceiptRecord {
    pub receipt_id: CryptoHash,
    pub parent_transaction_hash: CryptoHash,
    pub receiver_id: AccountId,
    pub block_height: u64,
    pub block_hash: CryptoHash,
    pub shard_id: u64,
}

/// A block identified by height and hash.
#[derive(Clone, Copy, PartialEq, Eq, Structural, Debug)]
pub struct BlockRecord {
    pub height: u64,
    pub hash: CryptoHash,
}

/// Validator information of one epoch; the validator set itself is carried
/// as an opaque payload.
#[derive(Clone, PartialEq, Debug)]
pub struct EpochValidatorsInfo {
    pub epoch_id: CryptoHash,
    pub epoch_height: u64,
    pub epoch_start_height: u64,
    pub validators_info: Vec<u8>,
}

#[derive(Clone, PartialEq, Debug)]
pub struct IndexedEpochInfo {
    pub epoch_id: CryptoHash,
    pub epoch_height: u64,
    pub epoch_start_height: u64,
    pub validators_info: Vec<u8>,
}

#[derive(Clone, PartialEq, Debug)]
pub struct IndexedEpochInfoWithPreviousAndNextEpochId {
    pub previous_epoch_id: Option<CryptoHash>,
    pub epoch_info: IndexedEpochInfo,
    pub next_epoch_id: CryptoHash,
}

} // verus!
