//! Durable observations and derived diagnostics. A source occurrence is not just a tx hash.

use crate::bytes;
use crate::foreign;
use crate::source::ReplayMetadata;
use crate::text;
use crate::words;
use crate::words::B256;
use vstd::prelude::*;

verus! {

#[derive(Clone, Copy, Debug, PartialEq, Eq, Structural)]
pub struct ReplayIdentity {
    pub chain_id: u64,
    pub checkpoint_height: u64,
    pub source_hash: B256,
    pub target_hash: B256,
}

impl ReplayIdentity {
    /// The checkpoint block of the source chain.
    pub fn source_cursor(self) -> (r: BlockCursor)
        ensures
            r == (BlockCursor { height: self.checkpoint_height, hash: self.source_hash }),
    {
        BlockCursor { height: self.checkpoint_height, hash: self.source_hash }
    }

    /// The patched checkpoint block of the target chain.
    pub fn target_cursor(self) -> (r: BlockCursor)
        ensures
            r == (BlockCursor { height: self.checkpoint_height, hash: self.target_hash }),
    {
        BlockCursor { height: self.checkpoint_height, hash: self.target_hash }
    }
}

/// One block of a chain.
#[derive(Clone, Copy, Debug, Default, PartialEq, Eq, Structural)]
pub struct BlockCursor {
    pub height: u64,
    pub hash: B256,
}

/// One transaction of one source block: the same signed hash may occur more than once.
#[derive(Clone, Copy, Debug, PartialEq, Eq, PartialOrd, Ord, Structural)]
pub struct OccurrenceId {
    pub source_height: u64,
    pub source_index: u32,
}

impl OccurrenceId {
    /// The key of the occurrence: its height in 8 bytes, then its index in 4.
    pub open spec fn key_bytes(self) -> Seq<u8> {
        bytes::be(self.source_height as nat, 8) + bytes::be(self.source_index as nat, 4)
    }

    /// Source order: by height, then by position in the block.
    pub open spec fn precedes(self, other: Self) -> bool {
        self.source_height < other.source_height || (self.source_height == other.source_height
            && self.source_index < other.source_index)
    }

    /// The key as bytes of any length.
    pub fn key_vec(self) -> (r: Vec<u8>)
        ensures
            r@ == self.key_bytes(),
    {
        let mut out: Vec<u8> = Vec::new();
        bytes::push_be(&mut out, self.source_height as u128, 8);
        bytes::push_be(&mut out, self.source_index as u128, 4);
        assert(out@ =~= self.key_bytes());
        out
    }

    /// The key of the occurrence.
    pub fn key(self) -> (r: [u8; 12])
        ensures
            r@ == self.key_bytes(),
    {
        let bytes = self.key_vec();
        proof {
            lemma_key_len(self);
        }
        let mut key: [u8; 12] = [0u8; 12];
        let mut i: usize = 0;
        while i < 12
            invariant
                i <= 12,
                bytes@ == self.key_bytes(),
                bytes@.len() == 12,
                forall|j: int| 0 <= j < i ==> key@[j] == bytes@[j],
            decreases 12 - i,
        {
            key[i] = bytes[i];
            i += 1;
        }
        assert(key@ =~= self.key_bytes());
        key
    }

    /// The occurrence that has this key: there is one exactly if the key has 12 bytes.
    pub fn decode(key: &[u8]) -> (r: Option<Self>)
        ensures
            r == decoded(key@),
            r is Some <==> key@.len() == 12,
            r matches Some(id) ==> id.key_bytes() == key@,
    {
        if key.len() != 12 {
            return None;
        }
        let height: u128 = bytes::read_be(key, 0, 8);
        let index: u128 = bytes::read_be(key, 8, 4);
        proof {
            bytes::lemma_span16();
            bytes::lemma_value_be(key@.subrange(0, 8));
            bytes::lemma_value_be(key@.subrange(8, 12));
            assert(key@ =~= key@.subrange(0, 8) + key@.subrange(8, 12));
        }
        Some(OccurrenceId { source_height: height as u64, source_index: index as u32 })
    }
}

/// What `decode` gives for a key.
pub open spec fn decoded(key: Seq<u8>) -> Option<OccurrenceId> {
    if key.len() == 12 {
        Some(
            OccurrenceId {
                source_height: bytes::be_value(key.subrange(0, 8)) as u64,
                source_index: bytes::be_value(key.subrange(8, 12)) as u32,
            },
        )
    } else {
        None
    }
}

pub proof fn lemma_key_len(id: OccurrenceId)
    ensures
        id.key_bytes().len() == 12,
{
    bytes::lemma_be_len(id.source_height as nat, 8);
    bytes::lemma_be_len(id.source_index as nat, 4);
}

/// Keys are exact: no two occurrences share one.
pub proof fn law_keys_are_exact(a: OccurrenceId, b: OccurrenceId)
    ensures
        a.key_bytes() == b.key_bytes() <==> a == b,
        decoded(a.key_bytes()) == Some(a),
{
    bytes::lemma_span16();
    lemma_key_len(a);
    lemma_key_len(b);
    bytes::lemma_be_len(a.source_height as nat, 8);
    bytes::lemma_be_len(b.source_height as nat, 8);
    bytes::lemma_be_len(a.source_index as nat, 4);
    bytes::lemma_be_len(b.source_index as nat, 4);
    assert(a.key_bytes().subrange(0, 8) =~= bytes::be(a.source_height as nat, 8));
    assert(b.key_bytes().subrange(0, 8) =~= bytes::be(b.source_height as nat, 8));
    assert(a.key_bytes().subrange(8, 12) =~= bytes::be(a.source_index as nat, 4));
    assert(b.key_bytes().subrange(8, 12) =~= bytes::be(b.source_index as nat, 4));
    bytes::lemma_be_value(a.source_height as nat, 8);
    bytes::lemma_be_value(a.source_index as nat, 4);
    if a.key_bytes() == b.key_bytes() {
        bytes::lemma_be_injective(a.source_height as nat, b.source_height as nat, 8);
        bytes::lemma_be_injective(a.source_index as nat, b.source_index as nat, 4);
    }
}

/// A key that decodes is the key of what it decodes to.
pub proof fn law_decoding_keeps_the_key(key: Seq<u8>)
    requires
        key.len() == 12,
    ensures
        decoded(key) matches Some(id) && id.key_bytes() == key,
{
    bytes::lemma_span16();
    bytes::lemma_value_be(key.subrange(0, 8));
    bytes::lemma_value_be(key.subrange(8, 12));
    assert(key =~= key.subrange(0, 8) + key.subrange(8, 12));
}

/// Keys are ordered: the store lists occurrences in source order.
pub proof fn law_keys_are_ordered(a: OccurrenceId, b: OccurrenceId)
    ensures
        bytes::before(a.key_bytes(), b.key_bytes()) <==> a.precedes(b),
        bytes::before(a.key_bytes(), b.key_bytes()) <==> a.source_height < b.source_height || (a.source_height
            == b.source_height && a.source_index < b.source_index),
        a.key_bytes().len() == 12,
{
    lemma_key_len(a);
    bytes::lemma_span16();
    let (ha, hb) = (bytes::be(a.source_height as nat, 8), bytes::be(b.source_height as nat, 8));
    let (ia, ib) = (bytes::be(a.source_index as nat, 4), bytes::be(b.source_index as nat, 4));
    bytes::lemma_be_len(a.source_height as nat, 8);
    bytes::lemma_be_len(b.source_height as nat, 8);
    bytes::lemma_be_order(a.source_height as nat, b.source_height as nat, 8);
    bytes::lemma_be_order(b.source_height as nat, a.source_height as nat, 8);
    bytes::lemma_be_order(a.source_index as nat, b.source_index as nat, 4);
    if a.source_height < b.source_height {
        bytes::lemma_before_by_head(ha, hb, ia, ib);
    } else if b.source_height < a.source_height {
        bytes::lemma_before_by_head(hb, ha, ib, ia);
        bytes::lemma_before_asymmetric(b.key_bytes(), a.key_bytes());
    } else {
        bytes::lemma_before_after_common(ha, ia, ib);
    }
}

/// Where a transaction stands in a chain.
#[derive(Clone, Copy, Debug, PartialEq, Eq, Structural)]
pub struct TxLocation {
    pub block: BlockCursor,
    pub index: u32,
    pub timestamp_ms: u64,
}

/// The consensus outcome of a transaction.
#[derive(Clone, Copy, Debug, PartialEq, Eq, Structural)]
pub struct ReceiptSummary {
    pub status: bool,
    pub gas_used: u64,
    pub logs_hash: B256,
}

/// One occurrence of a transaction on the target chain.
#[derive(Clone, Copy, Debug, PartialEq, Eq, Structural)]
pub struct TargetObservation {
    pub transaction_hash: B256,
    pub location: TxLocation,
    pub receipt: ReceiptSummary,
}

impl View for TargetObservation {
    type V = TargetObservation;

    open spec fn view(&self) -> TargetObservation {
        *self
    }
}

/// How the target answered one submission attempt.
#[derive(Clone, Copy, Debug, PartialEq, Eq, Structural)]
pub enum Disposition {
    Accepted,
    AlreadyKnown,
    Rejected,
    PossiblyIncluded,
    Ambiguous,
}

/// The error of one submission attempt.
#[derive(Debug, PartialEq, Eq)]
pub struct RpcFailure {
    pub code: Option<i64>,
    pub message: String,
    /// Bounded original JSON text.
    pub data: Option<String>,
}

/// What an `RpcFailure` says.
#[verifier::ext_equal]
pub struct FailureModel {
    pub code: Option<i64>,
    pub message: Seq<char>,
    pub data: Option<Seq<char>>,
}

impl View for RpcFailure {
    type V = FailureModel;

    open spec fn view(&self) -> FailureModel {
        FailureModel { code: self.code, message: self.message@, data: text::view(self.data) }
    }
}

impl Clone for RpcFailure {
    fn clone(&self) -> (r: Self)
        ensures
            r@ == self@,
    {
        RpcFailure { code: self.code, message: self.message.clone(), data: self.data.clone() }
    }
}

/// The rejection names that depend on the target's state, so that a later head can lift them.
pub open spec fn state_dependent(name: Seq<char>) -> bool {
    ||| name == "InsufficientFeeTokenBalanceError"@
    ||| name == "InsufficientAmmLiquidityError"@
    ||| name == "FeeTokenPausedError"@
}

/// The rejection name of a transaction whose signed validity window had closed.
pub open spec fn window_closed(name: Seq<char>) -> bool {
    name == "InvalidValidBeforeError"@
}

impl FailureModel {
    /// The node's structured rejection name, only for `TransactionRejected` responses.
    pub open spec fn structured_name(self) -> Option<Seq<char>> {
        if self.code == Some(-32003i64) {
            match self.data {
                Some(data) => foreign::json_text_member(data, "name"@),
                None => None,
            }
        } else {
            None
        }
    }

    pub open spec fn retry_after_head(self) -> bool {
        self.structured_name() matches Some(name) && state_dependent(name)
    }

    pub open spec fn expired_at_admission(self) -> bool {
        self.structured_name() matches Some(name) && window_closed(name)
    }
}

/// Whether a structured rejection name, if there is one, is state-dependent.
pub fn names_state_dependent_rejection(name: &Option<String>) -> (r: bool)
    ensures
        r == (text::view(*name) matches Some(name) && state_dependent(name)),
{
    match name {
        None => false,
        Some(name) => *name == "InsufficientFeeTokenBalanceError".to_owned() || *name
            == "InsufficientAmmLiquidityError".to_owned() || *name == "FeeTokenPausedError".to_owned(),
    }
}

/// Whether a structured rejection name, if there is one, reports a closed validity window.
pub fn names_closed_window(name: &Option<String>) -> (r: bool)
    ensures
        r == (text::view(*name) matches Some(name) && window_closed(name)),
{
    match name {
        None => false,
        Some(name) => *name == "InvalidValidBeforeError".to_owned(),
    }
}

impl RpcFailure {
    /// The node's structured rejection name, only for `TransactionRejected` responses.
    pub fn structured_name(&self) -> (r: Option<String>)
        ensures
            text::view(r) == self@.structured_name(),
    {
        // TransactionRejected, not an arbitrary RPC error.
        if self.code != Some(-32003i64) {
            return None;
        }
        match &self.data {
            Some(data) => foreign::text_member(data.as_str(), "name"),
            None => None,
        }
    }

    /// Only explicitly structured, state-dependent node errors are eligible. Unknown errors,
    /// expiry, signature failures and nonce-too-low are deliberately not inferred as retryable.
    pub fn retry_after_head(&self) -> (r: bool)
        ensures
            r == self@.retry_after_head(),
    {
        names_state_dependent_rejection(&self.structured_name())
    }

    /// The signed validity window had already closed at the target when it was submitted. This
    /// is a replay-lag artifact, not evidence about the transaction, and is never retried.
    pub fn expired_at_admission(&self) -> (r: bool)
        ensures
            r == self@.expired_at_admission(),
    {
        names_closed_window(&self.structured_name())
    }
}

/// A rejection for a closed window is never one that a later head can lift.
pub proof fn law_expiry_is_never_retried(failure: FailureModel)
    ensures
        !(failure.expired_at_admission() && failure.retry_after_head()),
{
    reveal_strlit("InvalidValidBeforeError");
    reveal_strlit("InsufficientFeeTokenBalanceError");
    reveal_strlit("InsufficientAmmLiquidityError");
    reveal_strlit("FeeTokenPausedError");
    assert("InvalidValidBeforeError"@[2] == 'v');
    assert("InsufficientFeeTokenBalanceError"@[2] == 's');
    assert("InsufficientAmmLiquidityError"@[2] == 's');
    assert("FeeTokenPausedError"@[2] == 'e');
}

/// Only a structured `TransactionRejected` answer is ever retried after the head moves or read
/// as a closed window.
pub proof fn law_other_codes_are_neither_retried_nor_expired(failure: FailureModel)
    requires
        failure.code != Some(-32003i64) || failure.data is None,
    ensures
        !failure.retry_after_head(),
        !failure.expired_at_admission(),
{
}

/// A rejection is retried after the head moves if and only if the node rejected the transaction with
/// the structured name of a fee balance, a liquidity or a paused fee token; a window is read as closed
/// if and only if the name says that. The wording of the message does not matter.
pub proof fn law_rejections_are_told_by_their_structured_name(failure: FailureModel)
    ensures
        ({
            let name = foreign::json_text_member(failure.data->0, "name"@);
            let structured = failure.code == Some(-32003i64) && failure.data is Some && name is Some;
            &&& failure.retry_after_head() <==> structured && (name->0 == "InsufficientFeeTokenBalanceError"@ || name->0
                == "InsufficientAmmLiquidityError"@ || name->0 == "FeeTokenPausedError"@)
            &&& failure.expired_at_admission() <==> structured && name->0 == "InvalidValidBeforeError"@
        }),
{
}

/// One submission attempt of one occurrence.
#[derive(Debug, PartialEq, Eq)]
pub struct Attempt {
    pub queued_at_ms: u64,
    pub target_observed: BlockCursor,
    pub started_at_ms: u64,
    pub completed_at_ms: u64,
    pub disposition: Disposition,
    pub failure: Option<RpcFailure>,
}

/// What an `Attempt` says.
#[verifier::ext_equal]
pub struct AttemptModel {
    pub queued_at_ms: u64,
    pub target_observed: BlockCursor,
    pub started_at_ms: u64,
    pub completed_at_ms: u64,
    pub disposition: Disposition,
    pub failure: Option<FailureModel>,
}

impl View for Attempt {
    type V = AttemptModel;

    open spec fn view(&self) -> AttemptModel {
        AttemptModel {
            queued_at_ms: self.queued_at_ms,
            target_observed: self.target_observed,
            started_at_ms: self.started_at_ms,
            completed_at_ms: self.completed_at_ms,
            disposition: self.disposition,
            failure: match self.failure {
                Some(failure) => Some(failure@),
                None => None,
            },
        }
    }
}

impl Clone for Attempt {
    fn clone(&self) -> (r: Self)
        ensures
            r@ == self@,
    {
        Attempt {
            queued_at_ms: self.queued_at_ms,
            target_observed: self.target_observed,
            started_at_ms: self.started_at_ms,
            completed_at_ms: self.completed_at_ms,
            disposition: self.disposition,
            failure: match &self.failure {
                Some(failure) => Some(failure.clone()),
                None => None,
            },
        }
    }
}

/// What a list of attempts says.
pub open spec fn attempts_view(attempts: Seq<Attempt>) -> Seq<AttemptModel> {
    attempts.map_values(|attempt: Attempt| attempt@)
}

/// One record is enriched independently by the relay and receipt observers. No persisted finding.
#[derive(Debug, PartialEq, Eq)]
pub struct Occurrence {
    pub source: TxLocation,
    pub transaction: ReplayMetadata,
    pub raw: Vec<u8>,
    pub source_receipt: Option<ReceiptSummary>,
    pub target: Option<TargetObservation>,
    pub queued_at_ms: u64,
    pub last_queued_at_ms: u64,
    pub target_at_dispatch: BlockCursor,
    /// Committed before each submission round, including recovery, to bound restart retries.
    pub rounds: u32,
    pub completed_round: u32,
    pub in_flight: bool,
    pub interrupted_rounds: u32,
    pub attempts: Vec<Attempt>,
}

/// What an `Occurrence` says.
#[verifier::ext_equal]
pub struct OccurrenceModel {
    pub source: TxLocation,
    pub transaction: ReplayMetadata,
    pub raw: Seq<u8>,
    pub source_receipt: Option<ReceiptSummary>,
    pub target: Option<TargetObservation>,
    pub queued_at_ms: u64,
    pub last_queued_at_ms: u64,
    pub target_at_dispatch: BlockCursor,
    pub rounds: u32,
    pub completed_round: u32,
    pub in_flight: bool,
    pub interrupted_rounds: u32,
    pub attempts: Seq<AttemptModel>,
}

impl View for Occurrence {
    type V = OccurrenceModel;

    open spec fn view(&self) -> OccurrenceModel {
        OccurrenceModel {
            source: self.source,
            transaction: self.transaction,
            raw: self.raw@,
            source_receipt: self.source_receipt,
            target: self.target,
            queued_at_ms: self.queued_at_ms,
            last_queued_at_ms: self.last_queued_at_ms,
            target_at_dispatch: self.target_at_dispatch,
            rounds: self.rounds,
            completed_round: self.completed_round,
            in_flight: self.in_flight,
            interrupted_rounds: self.interrupted_rounds,
            attempts: attempts_view(self.attempts@),
        }
    }
}

impl Clone for Occurrence {
    fn clone(&self) -> (r: Self)
        ensures
            r@ == self@,
    {
        let attempts = self.attempts.clone();
        assert(attempts_view(attempts@) =~= attempts_view(self.attempts@));
        Occurrence {
            source: self.source,
            transaction: self.transaction,
            raw: self.raw.clone(),
            source_receipt: self.source_receipt,
            target: self.target,
            queued_at_ms: self.queued_at_ms,
            last_queued_at_ms: self.last_queued_at_ms,
            target_at_dispatch: self.target_at_dispatch,
            rounds: self.rounds,
            completed_round: self.completed_round,
            in_flight: self.in_flight,
            interrupted_rounds: self.interrupted_rounds,
            attempts,
        }
    }
}

/// Contracts speak of a record field by field as it is: its attempts in their order, each with what the
/// node said.
pub proof fn law_a_record_says_what_it_holds(record: Occurrence, i: int)
    requires
        0 <= i < record.attempts@.len(),
    ensures
        record@.source == record.source,
        record@.transaction == record.transaction,
        record@.raw == record.raw@,
        record@.source_receipt == record.source_receipt,
        record@.target == record.target,
        record@.queued_at_ms == record.queued_at_ms,
        record@.last_queued_at_ms == record.last_queued_at_ms,
        record@.target_at_dispatch == record.target_at_dispatch,
        record@.rounds == record.rounds,
        record@.completed_round == record.completed_round,
        record@.in_flight == record.in_flight,
        record@.interrupted_rounds == record.interrupted_rounds,
        record@.attempts.len() == record.attempts@.len(),
        ({
            let (said, attempt) = (record@.attempts[i], record.attempts@[i]);
            &&& said.queued_at_ms == attempt.queued_at_ms
            &&& said.target_observed == attempt.target_observed
            &&& said.started_at_ms == attempt.started_at_ms
            &&& said.completed_at_ms == attempt.completed_at_ms
            &&& said.disposition == attempt.disposition
            &&& said.failure is Some <==> attempt.failure is Some
            &&& attempt.failure matches Some(failure) ==> {
                &&& said.failure->0.code == failure.code
                &&& said.failure->0.message == failure.message@
                &&& said.failure->0.data is Some <==> failure.data is Some
                &&& failure.data matches Some(data) ==> said.failure->0.data == Some(data@)
            }
        }),
{
}

/// The diagnosis of one record. It is computed on inspection and never stored.
#[derive(Clone, Copy, Debug, PartialEq, Eq, Structural)]
pub enum Finding {
    NotDispatched,
    SubmissionInFlight,
    DeliveryAmbiguous,
    AdmissionRejected,
    ExpiredBeforeDispatch,
    MissingWithinWindow,
    MissingAfterWindow,
    AwaitingSourceReceipt,
    Included,
    ExecutionDrift,
}

/// Subtraction that stops at zero.
pub open spec fn elapsed(now: u64, then: u64) -> u64 {
    if now >= then {
        (now - then) as u64
    } else {
        0
    }
}

impl AttemptModel {
    /// The target took the transaction or had it already.
    pub open spec fn delivered(self) -> bool {
        self.disposition == Disposition::Accepted || self.disposition == Disposition::AlreadyKnown
    }

    /// The attempt leaves open whether the target has the transaction.
    pub open spec fn uncertain(self) -> bool {
        self.disposition == Disposition::Ambiguous || self.disposition
            == Disposition::PossiblyIncluded
    }
}

impl OccurrenceModel {
    pub open spec fn id(self) -> OccurrenceId {
        OccurrenceId { source_height: self.source.block.height, source_index: self.source.index }
    }

    /// A round was opened whose outcome was never committed.
    pub open spec fn unfinished_round(self) -> bool {
        self.rounds > self.completed_round
    }

    /// The window in which a delivered transaction may still appear on the target is over.
    pub open spec fn window_over(
        self,
        last: AttemptModel,
        target_height: u64,
        now: u64,
        missing_blocks: u64,
        missing_ms: u64,
    ) -> bool {
        ||| missing_ms > 0 && elapsed(now, last.completed_at_ms) >= missing_ms
        ||| missing_blocks > 0 && elapsed(target_height, self.target_at_dispatch.height)
            >= missing_blocks
    }

    /// The diagnosis: what the target shows decides first, then open or unknown deliveries, then
    /// the last attempt.
    pub open spec fn finding(
        self,
        target_height: u64,
        now: u64,
        missing_blocks: u64,
        missing_ms: u64,
    ) -> Finding {
        match self.target {
            Some(target) => match self.source_receipt {
                None => Finding::AwaitingSourceReceipt,
                Some(receipt) => if receipt == target.receipt {
                    Finding::Included
                } else {
                    Finding::ExecutionDrift
                },
            },
            None => if self.in_flight {
                Finding::SubmissionInFlight
            } else if self.unfinished_round() {
                Finding::DeliveryAmbiguous
            } else if self.attempts.len() == 0 {
                if self.rounds == 0 {
                    Finding::NotDispatched
                } else {
                    Finding::DeliveryAmbiguous
                }
            } else {
                let last = self.attempts.last();
                if last.disposition == Disposition::Rejected {
                    if last.failure matches Some(failure) && failure.expired_at_admission() {
                        Finding::ExpiredBeforeDispatch
                    } else {
                        Finding::AdmissionRejected
                    }
                } else if last.uncertain() {
                    Finding::DeliveryAmbiguous
                } else if self.window_over(last, target_height, now, missing_blocks, missing_ms) {
                    Finding::MissingAfterWindow
                } else {
                    Finding::MissingWithinWindow
                }
            },
        }
    }

    /// Every delivery was clean and both chains agree on the outcome.
    pub open spec fn clean_inclusion(self) -> bool {
        &&& !self.in_flight
        &&& self.interrupted_rounds == 0
        &&& forall|i: int| 0 <= i < self.attempts.len() ==> (#[trigger] self.attempts[i]).delivered()
        &&& self.target matches Some(target) && self.source_receipt == Some(target.receipt)
    }
}

impl Occurrence {
    /// The occurrence that this record is about.
    pub fn id(&self) -> (r: OccurrenceId)
        ensures
            r == self@.id(),
    {
        OccurrenceId { source_height: self.source.block.height, source_index: self.source.index }
    }

    /// The diagnosis of this record.
    pub fn finding(
        &self,
        target_height: u64,
        now: u64,
        missing_blocks: u64,
        missing_ms: u64,
    ) -> (r: Finding)
        ensures
            r == self@.finding(target_height, now, missing_blocks, missing_ms),
    {
        if let Some(target) = &self.target {
            return match &self.source_receipt {
                None => Finding::AwaitingSourceReceipt,
                Some(source) => if *source == target.receipt {
                    Finding::Included
                } else {
                    Finding::ExecutionDrift
                },
            };
        }
        if self.in_flight {
            return Finding::SubmissionInFlight;
        }
        if self.rounds > self.completed_round {
            return Finding::DeliveryAmbiguous;
        }
        if self.attempts.len() == 0 {
            return if self.rounds == 0 {
                Finding::NotDispatched
            } else {
                Finding::DeliveryAmbiguous
            };
        }
        let last = &self.attempts[self.attempts.len() - 1];
        assert(last@ == self@.attempts.last());
        match last.disposition {
            Disposition::Rejected => {
                let expired = match &last.failure {
                    Some(failure) => failure.expired_at_admission(),
                    None => false,
                };
                if expired {
                    Finding::ExpiredBeforeDispatch
                } else {
                    Finding::AdmissionRejected
                }
            },
            Disposition::Ambiguous => Finding::DeliveryAmbiguous,
            Disposition::PossiblyIncluded => Finding::DeliveryAmbiguous,
            _ => if (missing_ms > 0 && now.saturating_sub(last.completed_at_ms) >= missing_ms) || (
            missing_blocks > 0 && target_height.saturating_sub(self.target_at_dispatch.height)
                >= missing_blocks) {
                Finding::MissingAfterWindow
            } else {
                Finding::MissingWithinWindow
            },
        }
    }

    /// Whether every delivery was clean and both chains agree on the outcome.
    pub fn clean_inclusion(&self) -> (r: bool)
        ensures
            r == self@.clean_inclusion(),
    {
        if self.in_flight || self.interrupted_rounds != 0 {
            return false;
        }
        let mut i: usize = 0;
        while i < self.attempts.len()
            invariant
                i <= self.attempts@.len(),
                forall|j: int| 0 <= j < i ==> (#[trigger] self@.attempts[j]).delivered(),
            decreases self.attempts@.len() - i,
        {
            let disposition = self.attempts[i].disposition;
            assert(self@.attempts[i as int] == self.attempts@[i as int]@);
            if disposition != Disposition::Accepted && disposition != Disposition::AlreadyKnown {
                return false;
            }
            i += 1;
        }
        match (&self.target, &self.source_receipt) {
            (Some(target), Some(receipt)) => *receipt == target.receipt,
            _ => false,
        }
    }
}

/// An interrupted delivery is never read as the rejection that preceded it.
pub proof fn law_an_unknown_delivery_is_not_relabelled(
    record: OccurrenceModel,
    target_height: u64,
    now: u64,
    missing_blocks: u64,
    missing_ms: u64,
)
    requires
        record.target is None,
        !record.in_flight,
        record.unfinished_round(),
    ensures
        record.finding(target_height, now, missing_blocks, missing_ms)
            == Finding::DeliveryAmbiguous,
{
}

/// A clean inclusion is diagnosed as included, whatever the window.
pub proof fn law_clean_inclusions_are_included(
    record: OccurrenceModel,
    target_height: u64,
    now: u64,
    missing_blocks: u64,
    missing_ms: u64,
)
    requires
        record.clean_inclusion(),
    ensures
        record.finding(target_height, now, missing_blocks, missing_ms) == Finding::Included,
{
}

/// A transaction once missing after its window stays so while nothing new is recorded and both
/// clocks move on.
pub proof fn law_missing_is_monotone(
    record: OccurrenceModel,
    height: u64,
    later_height: u64,
    now: u64,
    later: u64,
    missing_blocks: u64,
    missing_ms: u64,
)
    requires
        height <= later_height,
        now <= later,
        record.finding(height, now, missing_blocks, missing_ms) == Finding::MissingAfterWindow,
    ensures
        record.finding(later_height, later, missing_blocks, missing_ms)
            == Finding::MissingAfterWindow,
{
}

/// What was seen on the target is judged by both receipts alone: included if and only if they agree
/// on status, gas and logs, drifted if they differ in any of them, and undecided only while the source
/// receipt is not there. No submission state, clock or window changes this.
pub proof fn law_inclusion_compares_whole_receipts(
    record: OccurrenceModel,
    target_height: u64,
    now: u64,
    missing_blocks: u64,
    missing_ms: u64,
)
    requires
        record.target is Some,
    ensures
        ({
            let finding = record.finding(target_height, now, missing_blocks, missing_ms);
            let there = record.target->0.receipt;
            &&& record.source_receipt is None <==> finding == Finding::AwaitingSourceReceipt
            &&& record.source_receipt matches Some(here) ==> {
                &&& finding == Finding::Included <==> here.status == there.status && here.gas_used == there.gas_used
                    && here.logs_hash == there.logs_hash
                &&& finding == Finding::ExecutionDrift <==> here.status != there.status || here.gas_used != there.gas_used
                    || here.logs_hash != there.logs_hash
            }
        }),
{
}

/// What was not seen on the target is never called included or drifted, and its diagnosis follows its
/// submissions: an open one is in flight; one that was cut off or left no attempt is ambiguous; none
/// at all is not dispatched; else the last attempt decides, and the attempts before it do not.
pub proof fn law_the_last_submission_decides_what_is_missing(
    record: OccurrenceModel,
    target_height: u64,
    now: u64,
    missing_blocks: u64,
    missing_ms: u64,
)
    requires
        record.target is None,
    ensures
        ({
            let finding = record.finding(target_height, now, missing_blocks, missing_ms);
            let ended = !record.in_flight && record.rounds <= record.completed_round;
            let last = record.attempts[record.attempts.len() - 1];
            &&& finding == Finding::SubmissionInFlight <==> record.in_flight
            &&& finding == Finding::NotDispatched <==> ended && record.attempts.len() == 0 && record.rounds == 0
            &&& finding == Finding::DeliveryAmbiguous <==> !record.in_flight && (record.rounds > record.completed_round
                || (record.attempts.len() == 0 && record.rounds > 0) || (record.attempts.len() > 0 && (last.disposition
                == Disposition::Ambiguous || last.disposition == Disposition::PossiblyIncluded)))
            &&& finding == Finding::AdmissionRejected || finding == Finding::ExpiredBeforeDispatch <==> ended
                && record.attempts.len() > 0 && last.disposition == Disposition::Rejected
            &&& finding == Finding::MissingWithinWindow || finding == Finding::MissingAfterWindow <==> ended
                && record.attempts.len() > 0 && (last.disposition == Disposition::Accepted || last.disposition
                == Disposition::AlreadyKnown)
        }),
{
}

/// A rejection is called a closed window if and only if the node said so by name in a structured
/// answer; any other rejection is one of admission.
pub proof fn law_a_rejection_is_called_by_its_name(
    record: OccurrenceModel,
    target_height: u64,
    now: u64,
    missing_blocks: u64,
    missing_ms: u64,
)
    requires
        record.target is None,
        !record.in_flight,
        record.rounds <= record.completed_round,
        record.attempts.len() > 0,
        record.attempts[record.attempts.len() - 1].disposition == Disposition::Rejected,
    ensures
        ({
            let failure = record.attempts[record.attempts.len() - 1].failure;
            let named = failure is Some && failure->0.code == Some(-32003i64) && failure->0.data is Some
                && foreign::json_text_member(failure->0.data->0, "name"@) == Some("InvalidValidBeforeError"@);
            record.finding(target_height, now, missing_blocks, missing_ms) == (if named {
                Finding::ExpiredBeforeDispatch
            } else {
                Finding::AdmissionRejected
            })
        }),
{
}

/// A delivered transaction is missing after its window if and only if the time since its last attempt
/// has reached the window in milliseconds, or the target has come that many blocks further than where
/// it stood at the dispatch. A window of zero is none.
pub proof fn law_the_window_is_counted_from_the_last_delivery(
    record: OccurrenceModel,
    target_height: u64,
    now: u64,
    missing_blocks: u64,
    missing_ms: u64,
)
    requires
        record.target is None,
        !record.in_flight,
        record.rounds <= record.completed_round,
        record.attempts.len() > 0,
        record.attempts[record.attempts.len() - 1].disposition == Disposition::Accepted
            || record.attempts[record.attempts.len() - 1].disposition == Disposition::AlreadyKnown,
    ensures
        record.finding(target_height, now, missing_blocks, missing_ms) == Finding::MissingAfterWindow <==> {
            ||| missing_ms > 0 && now >= record.attempts[record.attempts.len() - 1].completed_at_ms + missing_ms
            ||| missing_blocks > 0 && target_height >= record.target_at_dispatch.height + missing_blocks
        },
{
}

/// A clean inclusion is one whose every attempt was taken or known, that no crash cut off, and whose
/// receipts on both chains agree in status, gas and logs; nothing less.
pub proof fn law_a_clean_inclusion_has_nothing_to_explain(record: OccurrenceModel)
    ensures
        record.clean_inclusion() <==> {
            &&& !record.in_flight
            &&& record.interrupted_rounds == 0
            &&& forall|i: int| 0 <= i < record.attempts.len() ==> (#[trigger] record.attempts[i]).disposition
                == Disposition::Accepted || record.attempts[i].disposition == Disposition::AlreadyKnown
            &&& record.target is Some
            &&& record.source_receipt is Some
            &&& record.source_receipt->0.status == record.target->0.receipt.status
            &&& record.source_receipt->0.gas_used == record.target->0.receipt.gas_used
            &&& record.source_receipt->0.logs_hash == record.target->0.receipt.logs_hash
        },
{
    if record.clean_inclusion() {
        assert forall|i: int| 0 <= i < record.attempts.len() implies (#[trigger] record.attempts[i]).disposition
            == Disposition::Accepted || record.attempts[i].disposition == Disposition::AlreadyKnown by {
            assert(record.attempts[i].delivered());
        }
    }
    if forall|i: int| 0 <= i < record.attempts.len() ==> (#[trigger] record.attempts[i]).disposition == Disposition::Accepted
        || record.attempts[i].disposition == Disposition::AlreadyKnown {
        assert forall|i: int| 0 <= i < record.attempts.len() implies (#[trigger] record.attempts[i]).delivered() by {}
    }
}

/// Facts about an observation failure, not a diagnosis of transaction validity.
#[derive(Debug, PartialEq, Eq)]
pub struct Incident {
    pub observed_at_ms: u64,
    pub stage: String,
    pub message: String,
    pub history_failure: bool,
}

/// What an `Incident` says.
#[verifier::ext_equal]
pub struct IncidentModel {
    pub observed_at_ms: u64,
    pub stage: Seq<char>,
    pub message: Seq<char>,
    pub history_failure: bool,
}

impl View for Incident {
    type V = IncidentModel;

    open spec fn view(&self) -> IncidentModel {
        IncidentModel {
            observed_at_ms: self.observed_at_ms,
            stage: self.stage@,
            message: self.message@,
            history_failure: self.history_failure,
        }
    }
}

impl Clone for Incident {
    fn clone(&self) -> (r: Self)
        ensures
            r@ == self@,
    {
        Incident {
            observed_at_ms: self.observed_at_ms,
            stage: self.stage.clone(),
            message: self.message.clone(),
            history_failure: self.history_failure,
        }
    }
}

/// What a list of incidents says.
pub open spec fn incidents_view(incidents: Seq<Incident>) -> Seq<IncidentModel> {
    incidents.map_values(|incident: Incident| incident@)
}

/// Contracts speak of an incident field by field as it is, and of a list in its order.
pub proof fn law_an_incident_says_what_it_holds(incidents: Seq<Incident>, i: int)
    requires
        0 <= i < incidents.len(),
    ensures
        incidents_view(incidents).len() == incidents.len(),
        incidents_view(incidents)[i].observed_at_ms == incidents[i].observed_at_ms,
        incidents_view(incidents)[i].stage == incidents[i].stage@,
        incidents_view(incidents)[i].message == incidents[i].message@,
        incidents_view(incidents)[i].history_failure == incidents[i].history_failure,
{
}

/// The key that files an occurrence under a transaction hash.
pub open spec fn index_key(hash: B256, occurrence: OccurrenceId) -> Seq<u8> {
    hash.bytes() + occurrence.key_bytes()
}

/// The key as bytes of any length.
pub fn index_key_vec(hash: B256, occurrence: OccurrenceId) -> (r: Vec<u8>)
    ensures
        r@ == index_key(hash, occurrence),
{
    let mut out = hash.to_vec();
    let mut tail = occurrence.key_vec();
    out.append(&mut tail);
    out
}

/// The key that files an occurrence under a transaction hash.
pub fn tx_index_key(hash: B256, occurrence: OccurrenceId) -> (r: [u8; 44])
    ensures
        r@ == index_key(hash, occurrence),
{
    let bytes = index_key_vec(hash, occurrence);
    proof {
        words::lemma_hash_len(hash);
        lemma_key_len(occurrence);
    }
    let mut key: [u8; 44] = [0u8; 44];
    let mut i: usize = 0;
    while i < 44
        invariant
            i <= 44,
            bytes@ == index_key(hash, occurrence),
            bytes@.len() == 44,
            forall|j: int| 0 <= j < i ==> key@[j] == bytes@[j],
        decreases 44 - i,
    {
        key[i] = bytes[i];
        i += 1;
    }
    assert(key@ =~= index_key(hash, occurrence));
    key
}

/// An index key tells both its hash and its occurrence, and begins with the hash and with no
/// other one.
pub proof fn law_index_keys_are_exact(a: B256, b: B256, x: OccurrenceId, y: OccurrenceId)
    ensures
        index_key(a, x) == index_key(b, y) <==> a == b && x == y,
        bytes::starts_with(index_key(a, x), b.bytes()) <==> a == b,
        index_key(a, x).skip(32) == x.key_bytes(),
{
    words::lemma_hash_len(a);
    words::lemma_hash_len(b);
    assert(index_key(a, x).take(32) =~= a.bytes());
    assert(index_key(b, y).take(32) =~= b.bytes());
    assert(index_key(a, x).skip(32) =~= x.key_bytes());
    assert(index_key(b, y).skip(32) =~= y.key_bytes());
    law_keys_are_exact(x, y);
    if a.bytes() == b.bytes() {
        words::lemma_hash_injective(a, b);
    }
}

} // verus!
