//! One durable writer for relay and receipt observations. Findings are computed on inspection.

pub mod consistency;
pub mod history;
pub mod incident_laws;
pub mod intake;
pub mod intake_laws;
pub mod lookup_laws;
pub mod matching;
pub mod model;
pub mod observation_laws;
pub mod order_laws;
pub mod preparation_laws;
pub mod pruning_laws;
pub mod reconcile;
pub mod recovery_laws;
pub mod restart_laws;
pub mod retention;
pub mod retention_laws;
pub mod round_laws;
pub mod rounds;
pub mod submission_laws;

use crate::bytes;
use crate::evidence::model::{EvidenceModel, Outcome};
use crate::source::ReplayMetadata;
use crate::state;
use crate::state::{Attempt, BlockCursor, Disposition, Occurrence, OccurrenceId, ReplayIdentity};
use crate::store;
use crate::store::{Commit, CommitModel, Store, StoreLimits, StoreMeta, Write};
use crate::words::B256;
use vstd::prelude::*;

verus! {

/// Why an operation was refused.
#[derive(Clone, Copy, Debug, PartialEq, Eq, Structural)]
pub enum EvidenceError {
    CheckpointOverflow,
    NoRounds,
    SchemaMismatch,
    IdentityMismatch,
    MissingProgress,
    TooManyOccurrences,
    InvalidHashIndex,
    MissingIndexedOccurrence,
    DuplicateTargetLocation,
    SourceNotContiguous,
    DiskLimit,
    UnknownSigner,
    TooManyTransactions,
    SourceOccurrenceChanged,
    PreparedBlockChanged,
    MissingDispatchIntent,
    MissingDispatchRecord,
    CompletedWithoutIntent,
    CompletedWithoutEvidence,
    AttemptBound,
    DuplicateCompletion,
    SourceAdvanceNotContiguous,
    NoDurableIntent,
    CompletionHashMismatch,
    MissingSourceOccurrence,
    UnfinishedSubmissions,
    InvalidRecoveryIndex,
    MissingRecoveryOccurrence,
    ReceiptsNotContiguous,
    ReceiptCountMismatch,
    MissingReceiptOccurrence,
    TargetNotContiguous,
    InvalidUnmatchedIndex,
    InvalidCleanIndex,
    MissingCleanOccurrence,
    InconsistentCleanIndex,
}

impl EvidenceError {
    /// What the error says.
    pub open spec fn text(self) -> Seq<char> {
        match self {
            EvidenceError::CheckpointOverflow => "checkpoint height overflows shadow epoch length"@,
            EvidenceError::NoRounds => "max_rounds must be positive"@,
            EvidenceError::SchemaMismatch => "store schema is not supported"@,
            EvidenceError::IdentityMismatch => "store belongs to another replay"@,
            EvidenceError::MissingProgress => "missing evidence progress"@,
            EvidenceError::TooManyOccurrences => "too many repeated occurrences; inspect by source height/index"@,
            EvidenceError::InvalidHashIndex => "invalid hash index"@,
            EvidenceError::MissingIndexedOccurrence => "missing indexed occurrence"@,
            EvidenceError::DuplicateTargetLocation => "duplicate target location"@,
            EvidenceError::SourceNotContiguous => "source dispatch is not contiguous"@,
            EvidenceError::DiskLimit => "database or free-space limit reached"@,
            EvidenceError::UnknownSigner => "recover source transaction signer"@,
            EvidenceError::TooManyTransactions => "transaction index out of range"@,
            EvidenceError::SourceOccurrenceChanged => "source occurrence changed across restart"@,
            EvidenceError::PreparedBlockChanged => "prepared source block changed across restart"@,
            EvidenceError::MissingDispatchIntent => "missing dispatch intent"@,
            EvidenceError::MissingDispatchRecord => "missing dispatch record"@,
            EvidenceError::CompletedWithoutIntent => "submission completed without an intent"@,
            EvidenceError::CompletedWithoutEvidence => "submission completed without attempt evidence"@,
            EvidenceError::AttemptBound => "attempt evidence exceeded configured bound"@,
            EvidenceError::DuplicateCompletion => "duplicate completed submission"@,
            EvidenceError::SourceAdvanceNotContiguous => "source cursor advance is not contiguous"@,
            EvidenceError::NoDurableIntent => "source block has no durable intent"@,
            EvidenceError::CompletionHashMismatch => "source completion hash mismatch"@,
            EvidenceError::MissingSourceOccurrence => "missing source occurrence"@,
            EvidenceError::UnfinishedSubmissions => "source block has unfinished submissions"@,
            EvidenceError::InvalidRecoveryIndex => "invalid recovery index"@,
            EvidenceError::MissingRecoveryOccurrence => "recovery occurrence missing"@,
            EvidenceError::ReceiptsNotContiguous => "source receipts are not contiguous"@,
            EvidenceError::ReceiptCountMismatch => "source receipt count mismatch"@,
            EvidenceError::MissingReceiptOccurrence => "receipt occurrence missing"@,
            EvidenceError::TargetNotContiguous => "target history is not contiguous"@,
            EvidenceError::InvalidUnmatchedIndex => "invalid unmatched index"@,
            EvidenceError::InvalidCleanIndex => "invalid clean inclusion index"@,
            EvidenceError::MissingCleanOccurrence => "clean occurrence missing"@,
            EvidenceError::InconsistentCleanIndex => "clean inclusion index is inconsistent"@,
        }
    }

    /// What the error says.
    pub fn message(&self) -> (r: &'static str)
        ensures
            r@ == self.text(),
    {
        match self {
            EvidenceError::CheckpointOverflow => "checkpoint height overflows shadow epoch length",
            EvidenceError::NoRounds => "max_rounds must be positive",
            EvidenceError::SchemaMismatch => "store schema is not supported",
            EvidenceError::IdentityMismatch => "store belongs to another replay",
            EvidenceError::MissingProgress => "missing evidence progress",
            EvidenceError::TooManyOccurrences => "too many repeated occurrences; inspect by source height/index",
            EvidenceError::InvalidHashIndex => "invalid hash index",
            EvidenceError::MissingIndexedOccurrence => "missing indexed occurrence",
            EvidenceError::DuplicateTargetLocation => "duplicate target location",
            EvidenceError::SourceNotContiguous => "source dispatch is not contiguous",
            EvidenceError::DiskLimit => "database or free-space limit reached",
            EvidenceError::UnknownSigner => "recover source transaction signer",
            EvidenceError::TooManyTransactions => "transaction index out of range",
            EvidenceError::SourceOccurrenceChanged => "source occurrence changed across restart",
            EvidenceError::PreparedBlockChanged => "prepared source block changed across restart",
            EvidenceError::MissingDispatchIntent => "missing dispatch intent",
            EvidenceError::MissingDispatchRecord => "missing dispatch record",
            EvidenceError::CompletedWithoutIntent => "submission completed without an intent",
            EvidenceError::CompletedWithoutEvidence => "submission completed without attempt evidence",
            EvidenceError::AttemptBound => "attempt evidence exceeded configured bound",
            EvidenceError::DuplicateCompletion => "duplicate completed submission",
            EvidenceError::SourceAdvanceNotContiguous => "source cursor advance is not contiguous",
            EvidenceError::NoDurableIntent => "source block has no durable intent",
            EvidenceError::CompletionHashMismatch => "source completion hash mismatch",
            EvidenceError::MissingSourceOccurrence => "missing source occurrence",
            EvidenceError::UnfinishedSubmissions => "source block has unfinished submissions",
            EvidenceError::InvalidRecoveryIndex => "invalid recovery index",
            EvidenceError::MissingRecoveryOccurrence => "recovery occurrence missing",
            EvidenceError::ReceiptsNotContiguous => "source receipts are not contiguous",
            EvidenceError::ReceiptCountMismatch => "source receipt count mismatch",
            EvidenceError::MissingReceiptOccurrence => "receipt occurrence missing",
            EvidenceError::TargetNotContiguous => "target history is not contiguous",
            EvidenceError::InvalidUnmatchedIndex => "invalid unmatched index",
            EvidenceError::InvalidCleanIndex => "invalid clean inclusion index",
            EvidenceError::MissingCleanOccurrence => "clean occurrence missing",
            EvidenceError::InconsistentCleanIndex => "clean inclusion index is inconsistent",
        }
    }
}

/// How far the replay has come on both chains.
#[derive(Clone, Copy, Debug, Default, PartialEq, Eq, Structural)]
pub struct Progress {
    /// The generated shadow chainspec makes this block the epoch-0 boundary.
    pub checkpoint_height: u64,
    /// Advances atomically with all submission outcomes for a source block.
    pub source: BlockCursor,
    pub source_receipts: BlockCursor,
    pub target: BlockCursor,
    pub target_timestamp_ms: u64,
    pub source_transactions: u64,
    pub archived_included: u64,
    /// Target occurrences never matched to a source occurrence and pruned by target age.
    pub archived_unmatched: u64,
    pub system_transactions: u64,
    pub system_failures: u64,
    pub observation_failures: u64,
    pub history_failures: u64,
    pub last_dispatch_ms: u64,
    pub last_dispatch_target: BlockCursor,
    pub last_target_progress_ms: u64,
    pub stall_open: bool,
    pub incident_sequence: u64,
}

impl Progress {
    /// The progress of a replay that was not begun.
    fn at_checkpoint(identity: ReplayIdentity, now: u64) -> (r: Self)
        ensures
            r == EvidenceModel::initial_progress(identity, now),
    {
        let source = identity.source_cursor();
        let target = identity.target_cursor();
        Progress {
            checkpoint_height: identity.checkpoint_height,
            source,
            source_receipts: source,
            target,
            target_timestamp_ms: 0,
            source_transactions: 0,
            archived_included: 0,
            archived_unmatched: 0,
            system_transactions: 0,
            system_failures: 0,
            observation_failures: 0,
            history_failures: 0,
            last_dispatch_ms: 0,
            last_dispatch_target: target,
            last_target_progress_ms: now,
            stall_open: false,
            incident_sequence: 0,
        }
    }
}

/// A source block whose submissions or receipts are not all committed yet.
#[derive(Debug, PartialEq, Eq)]
pub struct SourceBlock {
    pub cursor: BlockCursor,
    pub timestamp_ms: u64,
    pub hashes: Vec<B256>,
    pub occurrences: Vec<OccurrenceId>,
}

/// What a `SourceBlock` says.
#[verifier::ext_equal]
pub struct SourceBlockModel {
    pub cursor: BlockCursor,
    pub timestamp_ms: u64,
    pub hashes: Seq<B256>,
    pub occurrences: Seq<OccurrenceId>,
}

impl View for SourceBlock {
    type V = SourceBlockModel;

    open spec fn view(&self) -> SourceBlockModel {
        SourceBlockModel {
            cursor: self.cursor,
            timestamp_ms: self.timestamp_ms,
            hashes: self.hashes@,
            occurrences: self.occurrences@,
        }
    }
}

impl Clone for SourceBlock {
    fn clone(&self) -> (r: Self)
        ensures
            r@ == self@,
    {
        SourceBlock {
            cursor: self.cursor,
            timestamp_ms: self.timestamp_ms,
            hashes: self.hashes.clone(),
            occurrences: self.occurrences.clone(),
        }
    }
}

/// An occurrence that is handed out for submission.
#[derive(Debug)]
pub struct Dispatch {
    pub id: OccurrenceId,
    pub transaction: ReplayMetadata,
    pub raw: Vec<u8>,
    pub queued_at_ms: u64,
    pub target_observed: BlockCursor,
    pub uncertain_delivery: bool,
}

impl View for Dispatch {
    type V = model::DispatchModel;

    open spec fn view(&self) -> model::DispatchModel {
        model::DispatchModel {
            id: self.id,
            transaction: self.transaction,
            raw: self.raw@,
            queued_at_ms: self.queued_at_ms,
            target_observed: self.target_observed,
            uncertain_delivery: self.uncertain_delivery,
        }
    }
}

impl Clone for Dispatch {
    fn clone(&self) -> (r: Self)
        ensures
            r@ == self@,
    {
        Dispatch {
            id: self.id,
            transaction: self.transaction,
            raw: self.raw.clone(),
            queued_at_ms: self.queued_at_ms,
            target_observed: self.target_observed,
            uncertain_delivery: self.uncertain_delivery,
        }
    }
}

/// What a list of dispatches says.
pub open spec fn dispatches_view(dispatches: Seq<Dispatch>) -> Seq<model::DispatchModel> {
    dispatches.map_values(|dispatch: Dispatch| dispatch@)
}

/// The outcome of a submission.
#[derive(Debug)]
pub struct Completed {
    pub id: OccurrenceId,
    pub attempts: Vec<Attempt>,
}

impl View for Completed {
    type V = model::CompletedModel;

    open spec fn view(&self) -> model::CompletedModel {
        model::CompletedModel { id: self.id, attempts: state::attempts_view(self.attempts@) }
    }
}

/// What a list of outcomes says.
pub open spec fn completions_view(completed: Seq<Completed>) -> Seq<model::CompletedModel> {
    completed.map_values(|completed: Completed| completed@)
}

/// The evidence of one replay.
pub struct EvidenceStore {
    store: Store,
    /// Total submission rounds per occurrence, including recovery. Fixed for a process; a
    /// changed value applies to records as they are next written.
    max_rounds: u32,
    limits: StoreLimits,
    pub progress: Progress,
    /// The commits that were not handed out for durable storage yet.
    journal: Vec<Commit>,
}

/// What a list of commits says.
pub open spec fn commits_view(commits: Seq<Commit>) -> Seq<CommitModel> {
    commits.map_values(|commit: Commit| commit@)
}

impl View for EvidenceStore {
    type V = EvidenceModel;

    closed spec fn view(&self) -> EvidenceModel {
        EvidenceModel {
            store: self.store@,
            max_rounds: self.max_rounds,
            limits: self.limits,
            progress: self.progress,
            journal: commits_view(self.journal@),
        }
    }
}

/// Contracts speak of dispatches, outcomes and source blocks field by field as they are, and of lists in
/// their order.
pub proof fn law_what_is_handed_out_says_what_it_holds(
    dispatches: Seq<Dispatch>,
    completed: Seq<Completed>,
    block: SourceBlock,
    i: int,
    j: int,
)
    requires
        0 <= i < dispatches.len(),
        0 <= j < completed.len(),
    ensures
        dispatches_view(dispatches).len() == dispatches.len(),
        ({
            let (said, dispatch) = (dispatches_view(dispatches)[i], dispatches[i]);
            &&& said.id == dispatch.id
            &&& said.transaction == dispatch.transaction
            &&& said.raw == dispatch.raw@
            &&& said.queued_at_ms == dispatch.queued_at_ms
            &&& said.target_observed == dispatch.target_observed
            &&& said.uncertain_delivery == dispatch.uncertain_delivery
        }),
        completions_view(completed).len() == completed.len(),
        completions_view(completed)[j].id == completed[j].id,
        completions_view(completed)[j].attempts.len() == completed[j].attempts@.len(),
        forall|k: int| 0 <= k < completed[j].attempts@.len() ==> #[trigger] completions_view(completed)[j].attempts[k]
            == completed[j].attempts@[k]@,
        block@.cursor == block.cursor,
        block@.timestamp_ms == block.timestamp_ms,
        block@.hashes == block.hashes@,
        block@.occurrences == block.occurrences@,
{
}

/// What an operation did is what its outcome says: the commit and the value, or the error and no
/// change at all.
pub open spec fn ran<T>(
    before: EvidenceModel,
    after: EvidenceModel,
    outcome: Outcome<T>,
    result: Result<T, EvidenceError>,
) -> bool {
    match outcome {
        Ok((commit, value)) => result == Ok::<T, EvidenceError>(value) && after == before.settle(commit),
        Err(error) => result == Err::<T, EvidenceError>(error) && after == before,
    }
}

/// A batch after one more change.
pub proof fn lemma_pushed(writes: Seq<Write>, write: Write)
    ensures
        store::writes_view(writes.push(write)) == store::writes_view(writes).push(write@),
{
    assert(store::writes_view(writes.push(write)) =~= store::writes_view(writes).push(write@));
}

impl EvidenceStore {
    /// The columns are in order, and the store says what it was made for.
    pub closed spec fn wf(&self) -> bool {
        self.store.wf() && self.store@.meta is Some
    }

    /// Opens a store for writing, a new one for this replay or one that was made for it.
    pub fn open_at(
        store: Store,
        identity: ReplayIdentity,
        max_rounds: u32,
        max_bytes: u64,
        min_free_bytes: u64,
        now: u64,
    ) -> (r: Result<Self, EvidenceError>)
        requires
            store.wf(),
        ensures
            match EvidenceModel::opened(
                store@,
                identity,
                max_rounds,
                StoreLimits { max_bytes, min_free_bytes },
                now,
            ) {
                Ok(opened) => r matches Ok(this) && this.wf() && this@ == opened,
                Err(error) => r matches Err(refused) && refused == error,
            },
    {
        if identity.checkpoint_height == u64::MAX {
            return Err(EvidenceError::CheckpointOverflow);
        }
        if max_rounds == 0 {
            return Err(EvidenceError::NoRounds);
        }
        if let Some(meta) = store.meta() {
            if meta.schema != store::SCHEMA {
                return Err(EvidenceError::SchemaMismatch);
            }
            if meta.identity != identity {
                return Err(EvidenceError::IdentityMismatch);
            }
        }
        let mut progress = match store.progress() {
            Some(progress) => progress,
            None => Progress::at_checkpoint(identity, now),
        };
        // Liveness, not evidence: downtime before this process started is not a target stall.
        progress.last_target_progress_ms = now;
        let mut store = store;
        store.stamp(StoreMeta { schema: store::SCHEMA, identity });
        let mut this = EvidenceStore {
            store,
            max_rounds,
            limits: StoreLimits { max_bytes, min_free_bytes },
            progress,
            journal: Vec::new(),
        };
        let writes: Vec<Write> = Vec::new();
        proof {
            assert(commits_view(this.journal@) =~= Seq::empty());
            assert(store::writes_view(writes@) =~= Seq::empty());
        }
        this.commit(writes, Some(progress));
        Ok(this)
    }

    /// Opens a store for writing at the machine's time.
    pub fn open(
        store: Store,
        identity: ReplayIdentity,
        max_rounds: u32,
        max_bytes: u64,
        min_free_bytes: u64,
    ) -> (r: Result<Self, EvidenceError>)
        requires
            store.wf(),
        ensures
            exists|now: u64|
                match #[trigger] EvidenceModel::opened(
                    store@,
                    identity,
                    max_rounds,
                    StoreLimits { max_bytes, min_free_bytes },
                    now,
                ) {
                    Ok(opened) => r matches Ok(this) && this.wf() && this@ == opened,
                    Err(error) => r matches Err(refused) && refused == error,
                },
    {
        Self::open_at(store, identity, max_rounds, max_bytes, min_free_bytes, crate::now_ms())
    }

    /// Opens a store for reading.
    pub fn open_reader(store: Store) -> (r: Result<Self, EvidenceError>)
        requires
            store.wf(),
        ensures
            match EvidenceModel::opened_for_reading(store@) {
                Ok(opened) => r matches Ok(this) && this.wf() && this@ == opened,
                Err(error) => r matches Err(refused) && refused == error,
            },
    {
        match store.meta() {
            Some(meta) => if meta.schema != store::SCHEMA {
                return Err(EvidenceError::SchemaMismatch);
            },
            None => {
                return Err(EvidenceError::SchemaMismatch);
            },
        }
        let progress = match store.progress() {
            Some(progress) => progress,
            None => {
                return Err(EvidenceError::MissingProgress);
            },
        };
        let this = EvidenceStore {
            store,
            max_rounds: u32::MAX,
            limits: StoreLimits { max_bytes: u64::MAX, min_free_bytes: 0 },
            progress,
            journal: Vec::new(),
        };
        assert(commits_view(this.journal@) =~= Seq::empty());
        Ok(this)
    }

    /// The replay that the store was made for.
    pub fn identity(&self) -> (r: ReplayIdentity)
        requires
            self.wf(),
        ensures
            self@.store.meta matches Some(meta) && meta.identity == r,
    {
        match self.store.meta() {
            Some(meta) => meta.identity,
            None => vstd::pervasive::unreached(),
        }
    }

    /// How far the replay has come.
    pub fn progress(&self) -> (r: Progress)
        ensures
            r == self@.progress,
    {
        self.progress
    }

    /// Hands out the commits since the last time, for durable storage.
    pub fn take_journal(&mut self) -> (r: Vec<Commit>)
        requires
            old(self).wf(),
        ensures
            final(self).wf(),
            commits_view(r@) == old(self)@.journal,
            final(self)@ == (EvidenceModel { journal: Seq::empty(), ..old(self)@ }),
    {
        let mut journal: Vec<Commit> = Vec::new();
        std::mem::swap(&mut journal, &mut self.journal);
        assert(commits_view(self.journal@) =~= Seq::empty());
        journal
    }

    /// Closes the evidence and keeps what it holds.
    pub fn into_store(self) -> (r: Store)
        requires
            self.wf(),
        ensures
            r.wf(),
            r@ == self@.store,
    {
        self.store
    }

    /// Whether a round may be begun for these occurrences: their interruptions can be counted.
    pub fn may_begin(&self, ids: &Vec<OccurrenceId>) -> (r: bool)
        requires
            self.wf(),
        ensures
            r == self@.countable(ids@),
    {
        let mut i: usize = 0;
        while i < ids.len()
            invariant
                i <= ids@.len(),
                self.wf(),
                self@.countable(ids@.take(i as int)),
            decreases ids@.len() - i,
        {
            if let Some(record) = self.store.record(ids[i].key_vec().as_slice()) {
                assert(self@.occurrence(ids@[i as int]) == Some(record@));
                if record.in_flight && record.interrupted_rounds == u32::MAX {
                    return false;
                }
            }
            i += 1;
            assert(forall|j: int| 0 <= j < i - 1 ==> #[trigger] ids@.take(i as int)[j] == ids@.take(i - 1)[j]);
        }
        assert(ids@.take(i as int) =~= ids@);
        true
    }

    /// Makes a batch of changes and, where it moved, files the progress with it.
    pub fn commit(&mut self, writes: Vec<Write>, progress: Option<Progress>)
        requires
            old(self).wf(),
        ensures
            final(self).wf(),
            final(self)@ == old(self)@.settle(
                Some(CommitModel { writes: store::writes_view(writes@), progress }),
            ),
    {
        let ghost before = self.journal@;
        let commit = Commit { writes, progress };
        let ghost model = commit@;
        proof {
            store::lemma_write_all_keeps(self.store@, model.writes);
        }
        self.store.commit(&commit);
        if let Some(progress) = progress {
            self.progress = progress;
        }
        self.journal.push(commit);
        assert(commits_view(self.journal@) =~= commits_view(before).push(model));
    }

    /// The record of an occurrence.
    pub fn occurrence(&self, id: OccurrenceId) -> (r: Option<Occurrence>)
        requires
            self.wf(),
        ensures
            r is Some <==> self@.occurrence(id) is Some,
            r matches Some(record) ==> self@.occurrence(id) == Some(record@),
    {
        match self.store.record(id.key_vec().as_slice()) {
            Some(record) => Some(record.clone()),
            None => None,
        }
    }

    /// A source block whose submissions or receipts are not all committed yet.
    pub fn source_block(&self, height: u64) -> (r: Option<SourceBlock>)
        requires
            self.wf(),
        ensures
            r is Some <==> model::lookup(self@.store.blocks, model::height_key(height)) is Some,
            r matches Some(block) ==> model::lookup(self@.store.blocks, model::height_key(height)) == Some(block@),
    {
        match self.store.block(Self::height_key_vec(height).as_slice()) {
            Some(block) => Some(block.clone()),
            None => None,
        }
    }

    fn height_key_vec(height: u64) -> (r: Vec<u8>)
        ensures
            r@ == model::height_key(height),
    {
        let mut key: Vec<u8> = Vec::new();
        bytes::push_be(&mut key, height as u128, 8);
        assert(key@ =~= model::height_key(height));
        key
    }

    /// Whether the target's clock has passed the signed window.
    fn expired(&self, record: &Occurrence) -> (r: bool)
        ensures
            r == self@.expired(record@),
    {
        match record.transaction.valid_before {
            Some(expiry) => expiry <= (self.progress.target_timestamp_ms / 1000).saturating_add(3),
            None => false,
        }
    }

    /// Whether `recovery_candidates` still has work for this record. Interrupted intents are
    /// always included so their `in_flight` marker is cleared even after the budget is spent or
    /// the transaction was seen on the target.
    fn recoverable(&self, record: &Occurrence) -> (r: bool)
        ensures
            r == self@.recoverable(record@),
    {
        if record.in_flight {
            return true;
        }
        if record.target.is_some() {
            return false;
        }
        if record.rounds >= self.max_rounds || self.expired(record) {
            return false;
        }
        if record.rounds > record.completed_round {
            return true;
        }
        if record.attempts.len() == 0 {
            return record.rounds > 0;
        }
        let last = &record.attempts[record.attempts.len() - 1];
        assert(last@ == record@.attempts.last());
        last.disposition == Disposition::Ambiguous || (last.disposition == Disposition::Rejected
            && match &last.failure {
            Some(failure) => failure.retry_after_head(),
            None => false,
        })
    }

    /// Files a record and brings its indexes in line with it.
    pub fn put_record(&self, writes: &mut Vec<Write>, record: &Occurrence)
        ensures
            store::writes_view(final(writes)@) == store::writes_view(old(writes)@)
                + self@.record_writes(record@),
    {
        let ghost before = writes@;
        let key = record.id().key_vec();
        let clean = Write::Clean { key: key.clone(), present: record.clean_inclusion() };
        let pending = Write::Pending { key: key.clone(), present: record.target.is_none() };
        let recovery = Write::Recovery { key: key.clone(), present: self.recoverable(record) };
        let filed = Write::Record { key, value: Some(record.clone()) };
        assert(seq![filed@, clean@, pending@, recovery@] =~= self@.record_writes(record@));
        writes.push(filed);
        writes.push(clean);
        writes.push(pending);
        writes.push(recovery);
        assert(store::writes_view(writes@) =~= store::writes_view(before) + seq![
            filed@,
            clean@,
            pending@,
            recovery@,
        ]);
    }
}

} // verus!
