//! Runs of operations: what holds however they follow one another, across any number of restarts.

use crate::evidence::intake_laws;
use crate::evidence::matching;
use crate::evidence::model;
use crate::evidence::model::{CompletedModel, EvidenceModel, Outcome};
use crate::evidence::restart_laws;
use crate::evidence::retention_laws;
use crate::evidence::round_laws;
use crate::evidence::SourceBlockModel;
use crate::fold;
use crate::source::Envelope;
use crate::state;
use crate::state::{BlockCursor, IncidentModel, OccurrenceId, OccurrenceModel, ReceiptSummary, ReplayIdentity, TargetObservation};
use crate::store;
use crate::store::{DiskUsage, StoreLimits, StoreModel};
use vstd::prelude::*;

verus! {

/// One operation on the evidence. Opening it is what a restart does.
pub enum Operation {
    Open { identity: ReplayIdentity, max_rounds: u32, limits: StoreLimits, now: u64 },
    Prepare { cursor: BlockCursor, timestamp_ms: u64, transactions: Seq<Envelope>, usage: DiskUsage, now: u64 },
    Begin { ids: Seq<OccurrenceId>, recovery: bool, now: u64 },
    Complete { completed: Seq<CompletedModel>, source: Option<BlockCursor> },
    Sweep,
    Receive { block: SourceBlockModel, receipts: Seq<ReceiptSummary> },
    Observe {
        cursor: BlockCursor,
        timestamp_ms: u64,
        observations: Seq<TargetObservation>,
        system_txs: u64,
        failures: Seq<IncidentModel>,
        usage: DiskUsage,
        now: u64,
    },
    Report { stage: Seq<char>, message: Seq<char>, history_failure: bool, now: u64 },
    Check { threshold_ms: u64, now: u64 },
    Retire { retain_blocks: u64 },
    TakeJournal,
}

impl EvidenceModel {
    /// The state after an operation with this outcome. One that is refused changes nothing.
    pub open spec fn ended<T>(self, outcome: Outcome<T>) -> EvidenceModel {
        match outcome {
            Ok((commit, _)) => self.settle(commit),
            Err(_) => self,
        }
    }

    /// The state after an operation.
    pub open spec fn after(self, operation: Operation) -> EvidenceModel {
        match operation {
            Operation::Open { identity, max_rounds, limits, now } => match EvidenceModel::opened(
                self.store,
                identity,
                max_rounds,
                limits,
                now,
            ) {
                Ok(opened) => opened,
                Err(_) => self,
            },
            Operation::Prepare { cursor, timestamp_ms, transactions, usage, now } => self.ended(
                self.prepare(cursor, timestamp_ms, transactions, usage, now),
            ),
            Operation::Begin { ids, recovery, now } => self.ended(self.begin(ids, recovery, now)),
            Operation::Complete { completed, source } => self.ended(self.complete(completed, source)),
            Operation::Sweep => self.ended(self.recover()),
            Operation::Receive { block, receipts } => self.ended(self.observe_source(block, receipts)),
            Operation::Observe { cursor, timestamp_ms, observations, system_txs, failures, usage, now } => self.ended(
                self.observe(cursor, timestamp_ms, observations, system_txs, failures, usage, now),
            ),
            Operation::Report { stage, message, history_failure, now } => self.settle(
                Some(self.report(stage, message, history_failure, now)),
            ),
            Operation::Check { threshold_ms, now } => self.settle(self.check(threshold_ms, now)),
            Operation::Retire { retain_blocks } => match self.retire(retain_blocks) {
                Ok(commit) => if retain_blocks == 0 {
                    self
                } else {
                    self.settle(commit)
                },
                Err(_) => self,
            },
            Operation::TakeJournal => EvidenceModel { journal: Seq::empty(), ..self },
        }
    }

    /// What an operation asks for: receipts are those of a stored block, observations stand in their
    /// block, and the number of the last incident leaves room for the new ones.
    pub open spec fn admits(self, operation: Operation) -> bool {
        match operation {
            Operation::Receive { block, receipts } => intake_laws::stored_block(self, block),
            Operation::Observe { cursor, observations, failures, .. } => {
                &&& intake_laws::of_block(cursor, observations)
                &&& self.progress.incident_sequence + failures.len() + (if self.progress.stall_open {
                    1int
                } else {
                    0int
                }) <= u64::MAX
            },
            Operation::Report { .. } => self.progress.incident_sequence < u64::MAX,
            Operation::Check { threshold_ms, now } => self.stalls(threshold_ms, now)
                ==> self.progress.incident_sequence < u64::MAX,
            _ => true,
        }
    }

    /// The state after some operations, in order.
    pub open spec fn run(self, operations: Seq<Operation>) -> EvidenceModel
        decreases operations.len(),
    {
        if operations.len() == 0 {
            self
        } else {
            self.run(operations.drop_last()).after(operations.last())
        }
    }

    /// Each of some operations, in order, has what it asks for.
    pub open spec fn runs(self, operations: Seq<Operation>) -> bool
        decreases operations.len(),
    {
        operations.len() > 0 ==> {
            &&& self.runs(operations.drop_last())
            &&& self.run(operations.drop_last()).admits(operations.last())
        }
    }
}

// One operation.

/// What one operation keeps. The store stays healthy and that of its replay. The source cursor never
/// goes back, and while it stays the blocks above it stay. A record keeps its signed bytes; one that
/// goes was not above the cursor; one that comes is above it and has no round.
pub open spec fn follows_from(m: EvidenceModel, at: EvidenceModel) -> bool {
    &&& at.healthy()
    &&& at.store.meta == m.store.meta
    &&& m.progress.source.height <= at.progress.source.height
    &&& at.progress.source.height == m.progress.source.height ==> at.progress.source == m.progress.source
    &&& forall|key: Seq<u8>| #[trigger] at.store.records.contains_key(key) && m.store.records.contains_key(key)
        ==> round_laws::same_source(at.store.records[key], m.store.records[key])
    &&& forall|key: Seq<u8>| #[trigger] m.store.records.contains_key(key) && !at.store.records.contains_key(key)
        ==> m.store.records[key].source.block.height <= m.progress.source.height
    &&& forall|key: Seq<u8>| #[trigger] at.store.records.contains_key(key) && !m.store.records.contains_key(key)
        ==> at.store.records[key].rounds == 0 && at.store.records[key].source.block.height > m.progress.source.height
    &&& at.progress.source.height == m.progress.source.height ==> forall|height: u64|
        height > m.progress.source.height && #[trigger] m.store.blocks.contains_key(model::height_key(height))
            ==> at.store.blocks.contains_key(model::height_key(height)) && at.store.blocks[model::height_key(height)]
            == m.store.blocks[model::height_key(height)]
}

/// Every record that stays keeps its rounds.
pub open spec fn rounds_kept(m: EvidenceModel, at: EvidenceModel) -> bool {
    forall|key: Seq<u8>| #[trigger] at.store.records.contains_key(key) && m.store.records.contains_key(key)
        ==> at.store.records[key].rounds == m.store.records[key].rounds
}

/// A commit does not change what a store was made for.
proof fn lemma_settling_keeps_the_meta(m: EvidenceModel, commit: Option<store::CommitModel>)
    ensures
        m.settle(commit).store.meta == m.store.meta,
        m.settle(commit).max_rounds == m.max_rounds,
{
    if let Some(commit) = commit {
        store::lemma_write_all_keeps(m.store, commit.writes);
    }
}

pub proof fn lemma_open(m: EvidenceModel, identity: ReplayIdentity, max_rounds: u32, limits: StoreLimits, now: u64)
    requires
        m.healthy(),
        m.store.meta is Some,
    ensures
        ({
            let at = m.after(Operation::Open { identity, max_rounds, limits, now });
            &&& follows_from(m, at)
            &&& rounds_kept(m, at)
            &&& at.max_rounds == max_rounds || at == m
            &&& at.store.incidents == m.store.incidents
            &&& at.progress.incident_sequence == m.progress.incident_sequence
            &&& at.store.records == m.store.records
            &&& at.store.unmatched == m.store.unmatched
        }),
{
    if EvidenceModel::opened(m.store, identity, max_rounds, limits, now) is Ok {
        restart_laws::law_reopening_keeps_the_evidence(m, identity, max_rounds, limits, now);
    }
}

proof fn lemma_prepare(
    m: EvidenceModel,
    cursor: BlockCursor,
    timestamp_ms: u64,
    transactions: Seq<Envelope>,
    usage: DiskUsage,
    now: u64,
)
    requires
        m.healthy(),
    ensures
        ({
            let at = m.after(Operation::Prepare { cursor, timestamp_ms, transactions, usage, now });
            follows_from(m, at) && rounds_kept(m, at)
        }),
{
    let outcome = m.prepare(cursor, timestamp_ms, transactions, usage, now);
    if outcome is Ok {
        intake_laws::law_preparation_records_every_relayed_transaction(m, cursor, timestamp_ms, transactions, usage, now);
        lemma_settling_keeps_the_meta(m, outcome->Ok_0.0);
        let at = m.settle(outcome->Ok_0.0);
        assert forall|height: u64| height > m.progress.source.height && #[trigger] m.store.blocks.contains_key(model::height_key(height)) implies
            at.store.blocks.contains_key(model::height_key(height)) && at.store.blocks[model::height_key(height)]
            == m.store.blocks[model::height_key(height)] by {
            assert(model::lookup(m.store.blocks, model::height_key(cursor.height)) matches Some(previous) ==> previous
                == EvidenceModel::prepared_block(cursor, timestamp_ms, transactions));
        }
    }
}

pub proof fn lemma_begin(m: EvidenceModel, ids: Seq<OccurrenceId>, recovery: bool, now: u64)
    requires
        m.healthy(),
    ensures
        ({
            let at = m.after(Operation::Begin { ids, recovery, now });
            &&& follows_from(m, at)
            &&& at.progress == m.progress
            &&& at.store.incidents == m.store.incidents
            &&& at.store.unmatched == m.store.unmatched
            &&& forall|key: Seq<u8>| #[trigger] at.store.records.contains_key(key) <==> m.store.records.contains_key(key)
            &&& forall|key: Seq<u8>| #[trigger] at.store.records.contains_key(key) ==> round_laws::same_observations(
                at.store.records[key],
                m.store.records[key],
            )
        }),
{
    if m.begin(ids, recovery, now) is Ok {
        round_laws::law_a_round_changes_submission_state_only(m, ids, recovery, now);
        round_laws::law_rounds_are_bounded(m, ids, recovery, now);
    }
}

pub proof fn lemma_complete(m: EvidenceModel, completed: Seq<CompletedModel>, source: Option<BlockCursor>)
    requires
        m.healthy(),
    ensures
        ({
            let at = m.after(Operation::Complete { completed, source });
            &&& follows_from(m, at)
            &&& rounds_kept(m, at)
            &&& at.store.incidents == m.store.incidents
            &&& at.store.unmatched == m.store.unmatched
            &&& at.progress.incident_sequence == m.progress.incident_sequence
            &&& forall|key: Seq<u8>| #[trigger] at.store.records.contains_key(key) <==> m.store.records.contains_key(key)
            &&& forall|key: Seq<u8>| #[trigger] at.store.records.contains_key(key) ==> round_laws::same_observations(
                at.store.records[key],
                m.store.records[key],
            )
        }),
{
    if m.complete(completed, source) is Ok {
        round_laws::law_completion_keeps_observations(m, completed, source);
        round_laws::law_attempts_are_bounded(m, completed, source);
        round_laws::lemma_dispatched_keeps(m, completed, completed.len());
    }
}

pub proof fn lemma_sweep(m: EvidenceModel)
    requires
        m.healthy(),
    ensures
        ({
            let at = m.after(Operation::Sweep);
            &&& follows_from(m, at)
            &&& rounds_kept(m, at)
            &&& at.store == (StoreModel { recovery: at.store.recovery, ..m.store })
            &&& at.progress == m.progress
        }),
{
    if m.recover() is Ok {
        round_laws::law_a_recovery_sweep_keeps_every_record(m);
    }
}

proof fn lemma_receive(m: EvidenceModel, block: SourceBlockModel, receipts: Seq<ReceiptSummary>)
    requires
        m.healthy(),
        intake_laws::stored_block(m, block),
    ensures
        ({
            let at = m.after(Operation::Receive { block, receipts });
            follows_from(m, at) && rounds_kept(m, at)
        }),
{
    let outcome = m.observe_source(block, receipts);
    if outcome is Ok {
        intake_laws::law_receipts_go_to_their_occurrences(m, block, receipts);
        lemma_settling_keeps_the_meta(m, outcome->Ok_0.0);
        let at = m.settle(outcome->Ok_0.0);
        assert forall|height: u64| height > m.progress.source.height && #[trigger] m.store.blocks.contains_key(model::height_key(height)) implies
            at.store.blocks.contains_key(model::height_key(height)) && at.store.blocks[model::height_key(height)]
            == m.store.blocks[model::height_key(height)] by {
            round_laws::lemma_height_keys(height, block.cursor.height);
        }
    }
}

proof fn lemma_observe(
    m: EvidenceModel,
    cursor: BlockCursor,
    timestamp_ms: u64,
    observations: Seq<TargetObservation>,
    system_txs: u64,
    failures: Seq<IncidentModel>,
    usage: DiskUsage,
    now: u64,
)
    requires
        m.healthy(),
        intake_laws::of_block(cursor, observations),
    ensures
        ({
            let at = m.after(
                Operation::Observe { cursor, timestamp_ms, observations, system_txs, failures, usage, now },
            );
            follows_from(m, at) && rounds_kept(m, at)
        }),
{
    let outcome = m.observe(cursor, timestamp_ms, observations, system_txs, failures, usage, now);
    if outcome is Ok {
        intake_laws::law_observation_consumes_each_target_once(
            m,
            cursor,
            timestamp_ms,
            observations,
            system_txs,
            failures,
            usage,
            now,
        );
        lemma_settling_keeps_the_meta(m, outcome->Ok_0.0);
    }
}

proof fn lemma_report(m: EvidenceModel, stage: Seq<char>, message: Seq<char>, history_failure: bool, now: u64)
    requires
        m.healthy(),
    ensures
        ({
            let at = m.after(Operation::Report { stage, message, history_failure, now });
            follows_from(m, at) && rounds_kept(m, at)
        }),
{
    intake_laws::law_incidents_touch_no_record(m, stage, message, history_failure, now);
    lemma_settling_keeps_the_meta(m, Some(m.report(stage, message, history_failure, now)));
}

proof fn lemma_check(m: EvidenceModel, threshold_ms: u64, now: u64)
    requires
        m.healthy(),
    ensures
        ({
            let at = m.after(Operation::Check { threshold_ms, now });
            follows_from(m, at) && rounds_kept(m, at)
        }),
{
    intake_laws::law_a_stall_is_opened_once(m, threshold_ms, now, now);
    intake_laws::lemma_a_check_files_an_incident(m, threshold_ms, now);
}

proof fn lemma_retire(m: EvidenceModel, retain_blocks: u64)
    requires
        m.healthy(),
    ensures
        ({
            let at = m.after(Operation::Retire { retain_blocks });
            follows_from(m, at) && rounds_kept(m, at)
        }),
{
    if m.retire(retain_blocks) is Ok {
        retention_laws::law_anomalies_are_never_pruned(m, retain_blocks);
        lemma_settling_keeps_the_meta(m, m.retire(retain_blocks)->Ok_0);
    }
}

/// Every operation, whether it succeeds or is refused, keeps the store healthy and leads on from
/// where it stood. Only beginning a round changes the rounds of a record, and only opening the store
/// changes the budget.
pub proof fn law_every_operation_keeps_the_store_healthy(m: EvidenceModel, operation: Operation)
    requires
        m.healthy(),
        m.store.meta is Some,
        m.admits(operation),
    ensures
        follows_from(m, m.after(operation)),
        operation !is Begin ==> rounds_kept(m, m.after(operation)),
        operation !is Open ==> m.after(operation).max_rounds == m.max_rounds,
{
    match operation {
        Operation::Open { identity, max_rounds, limits, now } => lemma_open(m, identity, max_rounds, limits, now),
        Operation::Prepare { cursor, timestamp_ms, transactions, usage, now } => lemma_prepare(
            m,
            cursor,
            timestamp_ms,
            transactions,
            usage,
            now,
        ),
        Operation::Begin { ids, recovery, now } => lemma_begin(m, ids, recovery, now),
        Operation::Complete { completed, source } => lemma_complete(m, completed, source),
        Operation::Sweep => lemma_sweep(m),
        Operation::Receive { block, receipts } => lemma_receive(m, block, receipts),
        Operation::Observe { cursor, timestamp_ms, observations, system_txs, failures, usage, now } => lemma_observe(
            m,
            cursor,
            timestamp_ms,
            observations,
            system_txs,
            failures,
            usage,
            now,
        ),
        Operation::Report { stage, message, history_failure, now } => lemma_report(
            m,
            stage,
            message,
            history_failure,
            now,
        ),
        Operation::Check { threshold_ms, now } => lemma_check(m, threshold_ms, now),
        Operation::Retire { retain_blocks } => lemma_retire(m, retain_blocks),
        Operation::TakeJournal => {
            let at = m.after(operation);
            assert(at.store == m.store && at.progress == m.progress);
        },
    }
}

/// Any run of operations and restarts keeps the store healthy, and its source cursor never goes back.
pub proof fn law_every_run_keeps_the_store_healthy(m: EvidenceModel, operations: Seq<Operation>)
    requires
        m.healthy(),
        m.store.meta is Some,
        m.runs(operations),
    ensures
        m.run(operations).healthy(),
        m.run(operations).store.meta == m.store.meta,
        m.progress.source.height <= m.run(operations).progress.source.height,
    decreases operations.len(),
{
    if operations.len() > 0 {
        let rest = operations.drop_last();
        law_every_run_keeps_the_store_healthy(m, rest);
        law_every_operation_keeps_the_store_healthy(m.run(rest), operations.last());
    }
}

// Resuming a block.

/// An operation that does not move the source cursor keeps the intent of the next block.
proof fn lemma_intent_stays(
    m: EvidenceModel,
    at: EvidenceModel,
    cursor: BlockCursor,
    timestamp_ms: u64,
    transactions: Seq<Envelope>,
)
    requires
        m.healthy(),
        follows_from(m, at),
        at.progress.source.height == m.progress.source.height,
        restart_laws::holds_intent(m, cursor, timestamp_ms, transactions),
    ensures
        restart_laws::holds_intent(at, cursor, timestamp_ms, transactions),
{
    assert(m.store.blocks.contains_key(model::height_key(cursor.height)));
    assert forall|i: int| 0 <= i < transactions.len() && #[trigger] intake_laws::relayed(transactions, i) implies i <= u32::MAX && (
    at.occurrence(EvidenceModel::occurrence_at(cursor, i)) matches Some(record) && {
        &&& record.raw == transactions[i].raw@
        &&& record.source.block == cursor
        &&& record.transaction.hash == transactions[i].hash
    }) by {
        let key = EvidenceModel::occurrence_at(cursor, i).key_bytes();
        assert(m.store.records.contains_key(key));
        assert(at.store.records.contains_key(key));
    }
}

/// The intent of a block outlasts any run of operations and restarts in which the source cursor does
/// not pass it.
pub proof fn law_an_intent_outlasts_every_run(
    m: EvidenceModel,
    operations: Seq<Operation>,
    cursor: BlockCursor,
    timestamp_ms: u64,
    transactions: Seq<Envelope>,
)
    requires
        m.healthy(),
        m.store.meta is Some,
        m.runs(operations),
        m.run(operations).progress.source.height == m.progress.source.height,
        restart_laws::holds_intent(m, cursor, timestamp_ms, transactions),
    ensures
        restart_laws::holds_intent(m.run(operations), cursor, timestamp_ms, transactions),
    decreases operations.len(),
{
    if operations.len() > 0 {
        let rest = operations.drop_last();
        law_every_run_keeps_the_store_healthy(m, rest);
        law_every_operation_keeps_the_store_healthy(m.run(rest), operations.last());
        law_an_intent_outlasts_every_run(m, rest, cursor, timestamp_ms, transactions);
        lemma_intent_stays(m.run(rest), m.run(operations), cursor, timestamp_ms, transactions);
    }
}

/// A run that only begins and completes rounds, sweeps for recovery, hands out the journal and
/// restarts.
pub open spec fn submits_only(operations: Seq<Operation>) -> bool {
    forall|i: int| 0 <= i < operations.len() ==> {
        ||| (#[trigger] operations[i]) is Begin
        ||| operations[i] is Complete
        ||| operations[i] is Sweep
        ||| operations[i] is TakeJournal
        ||| operations[i] is Open
    }
}

/// What both chains have shown is the same.
spec fn same_chains(m: EvidenceModel, at: EvidenceModel) -> bool {
    &&& at.store.unmatched == m.store.unmatched
    &&& forall|key: Seq<u8>| #[trigger] at.store.records.contains_key(key) <==> m.store.records.contains_key(key)
    &&& forall|key: Seq<u8>| #[trigger] at.store.records.contains_key(key) ==> round_laws::same_observations(
        at.store.records[key],
        m.store.records[key],
    ) && at.store.records[key].transaction == m.store.records[key].transaction
}

/// A run of submissions shows nothing of the chains.
proof fn lemma_submissions_show_nothing(m: EvidenceModel, operations: Seq<Operation>)
    requires
        m.healthy(),
        m.store.meta is Some,
        m.runs(operations),
        submits_only(operations),
    ensures
        same_chains(m, m.run(operations)),
    decreases operations.len(),
{
    if operations.len() > 0 {
        let rest = operations.drop_last();
        let at = m.run(rest);
        assert forall|i: int| 0 <= i < rest.len() implies {
            ||| (#[trigger] rest[i]) is Begin
            ||| rest[i] is Complete
            ||| rest[i] is Sweep
            ||| rest[i] is TakeJournal
            ||| rest[i] is Open
        } by {
            assert(rest[i] == operations[i]);
        }
        lemma_submissions_show_nothing(m, rest);
        law_every_run_keeps_the_store_healthy(m, rest);
        let last = operations[operations.len() - 1];
        law_every_operation_keeps_the_store_healthy(at, last);
        match last {
            Operation::Open { identity, max_rounds, limits, now } => lemma_open(at, identity, max_rounds, limits, now),
            Operation::Begin { ids, recovery, now } => lemma_begin(at, ids, recovery, now),
            Operation::Complete { completed, source } => lemma_complete(at, completed, source),
            Operation::Sweep => lemma_sweep(at),
            _ => {
                assert(at.after(last).store == at.store);
            },
        }
        let end = m.run(operations);
        assert(same_chains(at, end));
        assert forall|key: Seq<u8>| #[trigger] end.store.records.contains_key(key) implies round_laws::same_observations(
            end.store.records[key],
            m.store.records[key],
        ) && end.store.records[key].transaction == m.store.records[key].transaction by {
            assert(at.store.records.contains_key(key));
        }
    }
}

/// A block that was prepared can be prepared again after any run of operations and restarts in which
/// the source cursor did not pass it, such as one that began its round or committed part of its
/// outcomes: it gives the same occurrences, counts none of them anew, and changes no more of a record
/// than to give it a target occurrence. After a run that only submits it does not even do that, where
/// all target occurrences of the hash were read. One hash with too many occurrences to be looked up
/// is refused.
pub proof fn law_a_prepared_block_is_resumed_after_every_run(
    m: EvidenceModel,
    cursor: BlockCursor,
    timestamp_ms: u64,
    transactions: Seq<Envelope>,
    usage: DiskUsage,
    now: u64,
    operations: Seq<Operation>,
    later_usage: DiskUsage,
    later: u64,
)
    requires
        m.healthy(),
        m.store.meta is Some,
        m.prepare(cursor, timestamp_ms, transactions, usage, now) is Ok,
        ({
            let prepared = m.settle(m.prepare(cursor, timestamp_ms, transactions, usage, now)->Ok_0.0);
            let again = prepared.run(operations);
            &&& prepared.runs(operations)
            &&& again.progress.source.height == m.progress.source.height
            &&& again.limits.admits_spec(later_usage)
            &&& forall|i: int| 0 <= i < transactions.len() ==> again.by_hash_error((#[trigger] transactions[i]).hash) is None
        }),
    ensures
        ({
            let prepared = m.settle(m.prepare(cursor, timestamp_ms, transactions, usage, now)->Ok_0.0);
            let again = prepared.run(operations);
            let outcome = again.prepare(cursor, timestamp_ms, transactions, later_usage, later);
            &&& outcome matches Ok((commit, ids)) && ids == m.prepare(cursor, timestamp_ms, transactions, usage, now)->Ok_0.1
            &&& restart_laws::prepares_again(again, cursor, timestamp_ms, transactions, later_usage, later)
            &&& submits_only(operations) ==> forall|i: int| 0 <= i < transactions.len() && #[trigger] intake_laws::relayed(
                transactions,
                i,
            ) && matching::all_read(m, transactions[i].hash) ==> again.settle(outcome->Ok_0.0).occurrence(
                EvidenceModel::occurrence_at(cursor, i),
            ) == again.occurrence(EvidenceModel::occurrence_at(cursor, i))
        }),
{
    let outcome = m.prepare(cursor, timestamp_ms, transactions, usage, now);
    let prepared = m.settle(outcome->Ok_0.0);
    let again = prepared.run(operations);
    lemma_prepare(m, cursor, timestamp_ms, transactions, usage, now);
    restart_laws::lemma_preparation_is_held(m, cursor, timestamp_ms, transactions, usage, now);
    intake_laws::law_preparation_records_every_relayed_transaction(m, cursor, timestamp_ms, transactions, usage, now);
    law_an_intent_outlasts_every_run(prepared, operations, cursor, timestamp_ms, transactions);
    law_every_run_keeps_the_store_healthy(prepared, operations);
    restart_laws::law_a_held_intent_is_prepared_again(again, cursor, timestamp_ms, transactions, later_usage, later);
    let resumed = again.settle(again.prepare(cursor, timestamp_ms, transactions, later_usage, later)->Ok_0.0);
    if submits_only(operations) {
        lemma_submissions_show_nothing(prepared, operations);
        assert forall|i: int| 0 <= i < transactions.len() && #[trigger] intake_laws::relayed(transactions, i) && matching::all_read(
            m,
            transactions[i].hash,
        ) implies resumed.occurrence(EvidenceModel::occurrence_at(cursor, i)) == again.occurrence(
            EvidenceModel::occurrence_at(cursor, i),
        ) by {
            let (key, hash) = (EvidenceModel::occurrence_at(cursor, i).key_bytes(), transactions[i].hash);
            assert(matching::joined(prepared.store.records, prepared.store.unmatched, hash));
            lemma_joined_alike(prepared, again, hash);
            assert(again.occurrence(EvidenceModel::occurrence_at(cursor, i)) is Some);
            assert(again.store.records.contains_key(key));
        }
    }
}

/// Where both chains have shown the same, a hash is joined in both states or in neither.
proof fn lemma_joined_alike(m: EvidenceModel, at: EvidenceModel, hash: crate::words::B256)
    requires
        same_chains(m, at),
        matching::joined(m.store.records, m.store.unmatched, hash),
    ensures
        matching::joined(at.store.records, at.store.unmatched, hash),
{
    if forall|key: Seq<u8>| #[trigger] m.store.records.contains_key(key) && m.store.records[key].transaction.hash == hash
        ==> m.store.records[key].target is Some {
        assert forall|key: Seq<u8>| #[trigger] at.store.records.contains_key(key) && at.store.records[key].transaction.hash == hash implies
            at.store.records[key].target is Some by {
            assert(m.store.records.contains_key(key));
        }
    }
}

// Counting rounds.

/// How often an operation hands out an occurrence.
pub open spec fn handed_out(m: EvidenceModel, operation: Operation, id: OccurrenceId) -> nat {
    match operation {
        Operation::Begin { ids, recovery, now } => match m.begin(ids, recovery, now) {
            Ok((_, queued)) => round_laws::times_handed(queued, id),
            Err(_) => 0,
        },
        _ => 0,
    }
}

/// How often a run of operations hands out an occurrence.
pub open spec fn total_handed_out(m: EvidenceModel, operations: Seq<Operation>, id: OccurrenceId) -> nat
    decreases operations.len(),
{
    if operations.len() == 0 {
        0
    } else {
        total_handed_out(m, operations.drop_last(), id) + handed_out(
            m.run(operations.drop_last()),
            operations.last(),
            id,
        )
    }
}

/// Every restart of a run has the same budget, and every round is over distinct occurrences.
pub open spec fn within_budget(operations: Seq<Operation>, budget: u32) -> bool {
    forall|i: int| 0 <= i < operations.len() ==> (match #[trigger] operations[i] {
        Operation::Open { max_rounds, .. } => max_rounds == budget,
        Operation::Begin { ids, .. } => ids.no_duplicates(),
        _ => true,
    })
}

/// No occurrence was handed out more often than the budget allows, every record counts the dispatches
/// of its occurrence, and nothing above the source cursor that has no record was handed out.
spec fn tallied(m: EvidenceModel, handed: spec_fn(OccurrenceId) -> nat, budget: u32) -> bool {
    &&& m.max_rounds == budget
    &&& forall|id: OccurrenceId| #[trigger] handed(id) <= budget
    &&& forall|id: OccurrenceId| #[trigger] m.store.records.contains_key(id.key_bytes()) ==> handed(id)
        == m.store.records[id.key_bytes()].rounds
    &&& forall|id: OccurrenceId|
        !(#[trigger] m.store.records.contains_key(id.key_bytes())) && id.source_height > m.progress.source.height
            ==> handed(id) == 0
}

/// One operation keeps the tally.
proof fn lemma_tallied(m: EvidenceModel, operation: Operation, before: spec_fn(OccurrenceId) -> nat, after: spec_fn(OccurrenceId) -> nat, budget: u32)
    requires
        m.healthy(),
        m.store.meta is Some,
        m.admits(operation),
        tallied(m, before, budget),
        (match operation {
            Operation::Open { max_rounds, .. } => max_rounds == budget,
            Operation::Begin { ids, .. } => ids.no_duplicates(),
            _ => true,
        }),
        forall|id: OccurrenceId| #[trigger] after(id) == before(id) + handed_out(m, operation, id),
    ensures
        tallied(m.after(operation), after, budget),
{
    let at = m.after(operation);
    law_every_operation_keeps_the_store_healthy(m, operation);
    if let Operation::Open { identity, max_rounds, limits, now } = operation {
        lemma_open(m, identity, max_rounds, limits, now);
    }
    assert forall|id: OccurrenceId| true implies {
        &&& #[trigger] after(id) <= budget
        &&& at.store.records.contains_key(id.key_bytes()) ==> after(id) == at.store.records[id.key_bytes()].rounds
    } by {
        let key = id.key_bytes();
        assert(before(id) <= budget);
        if at.store.records.contains_key(key) {
            assert(at.store.records[key].id().key_bytes() == key);
            state::law_keys_are_exact(at.store.records[key].id(), id);
        }
        if let Operation::Begin { ids, recovery, now } = operation {
            lemma_begin(m, ids, recovery, now);
            if m.begin(ids, recovery, now) is Ok {
                if m.store.records.contains_key(key) {
                    round_laws::law_a_round_is_counted_as_it_is_handed_out(m, ids, recovery, now, id);
                    round_laws::law_rounds_are_bounded(m, ids, recovery, now);
                    assert(at.store.records.contains_key(key));
                } else {
                    lemma_only_records_are_handed_out(m, ids, recovery, now, id);
                }
            }
        }
    }
    assert forall|id: OccurrenceId| #[trigger] at.store.records.contains_key(id.key_bytes()) implies after(id)
        == at.store.records[id.key_bytes()].rounds by {
        assert(after(id) <= budget);
    }
    assert forall|id: OccurrenceId|
        !(#[trigger] at.store.records.contains_key(id.key_bytes())) && id.source_height > at.progress.source.height implies after(id) == 0 by {
        let key = id.key_bytes();
        assert(after(id) <= budget);
        if m.store.records.contains_key(key) {
            assert(m.store.records[key].id().key_bytes() == key);
            state::law_keys_are_exact(m.store.records[key].id(), id);
        }
        if let Operation::Begin { ids, recovery, now } = operation {
            if m.begin(ids, recovery, now) is Ok {
                lemma_only_records_are_handed_out(m, ids, recovery, now, id);
            }
        }
    }
}

/// A round hands out nothing that has no record.
proof fn lemma_only_records_are_handed_out(m: EvidenceModel, ids: Seq<OccurrenceId>, recovery: bool, now: u64, id: OccurrenceId)
    requires
        m.consistent(),
        m.begin(ids, recovery, now) is Ok,
        m.occurrence(id) is None,
    ensures
        round_laws::times_handed(m.begin(ids, recovery, now)->Ok_0.1, id) == 0,
{
    let queued = m.begin(ids, recovery, now)->Ok_0.1;
    let pred = |dispatch: model::DispatchModel| dispatch.id == id;
    let found = queued.filter(pred);
    broadcast use vstd::seq_lib::group_filter_ensures;

    if found.len() > 0 {
        fold::lemma_filter_from(queued, pred, 0);
        assert(pred(found[0]));
        round_laws::law_dispatches_are_committed_intents(m, ids, recovery, now, found[0]);
    }
}

proof fn lemma_run_tallied(start: EvidenceModel, operations: Seq<Operation>, budget: u32)
    requires
        start.healthy(),
        start.store.meta is Some,
        start.max_rounds == budget,
        start.store.records == Map::<Seq<u8>, OccurrenceModel>::empty(),
        start.runs(operations),
        within_budget(operations, budget),
    ensures
        tallied(start.run(operations), |id: OccurrenceId| total_handed_out(start, operations, id), budget),
    decreases operations.len(),
{
    let after = |id: OccurrenceId| total_handed_out(start, operations, id);
    if operations.len() > 0 {
        let rest = operations.drop_last();
        let last = operations[operations.len() - 1];
        assert forall|i: int| 0 <= i < rest.len() implies (match #[trigger] rest[i] {
            Operation::Open { max_rounds, .. } => max_rounds == budget,
            Operation::Begin { ids, .. } => ids.no_duplicates(),
            _ => true,
        }) by {
            assert(rest[i] == operations[i]);
        }
        lemma_run_tallied(start, rest, budget);
        law_every_run_keeps_the_store_healthy(start, rest);
        let before = |id: OccurrenceId| total_handed_out(start, rest, id);
        lemma_tallied(start.run(rest), last, before, after, budget);
    }
}

/// Over any run of operations and restarts with one budget, from a new store on, the dispatches ever
/// handed out for an occurrence are at most the budget, and those of one on record are as many as its
/// rounds: neither restarts nor crashes ever give an occurrence more.
pub proof fn law_dispatches_are_counted_and_bounded_over_every_run(
    identity: ReplayIdentity,
    budget: u32,
    limits: StoreLimits,
    now: u64,
    operations: Seq<Operation>,
    id: OccurrenceId,
)
    requires
        identity.checkpoint_height < u64::MAX,
        budget > 0,
        EvidenceModel::opened(StoreModel::nothing(), identity, budget, limits, now)->Ok_0.runs(operations),
        within_budget(operations, budget),
    ensures
        ({
            let start = EvidenceModel::opened(StoreModel::nothing(), identity, budget, limits, now)->Ok_0;
            &&& total_handed_out(start, operations, id) <= budget
            &&& start.run(operations).occurrence(id) matches Some(record) ==> {
                &&& total_handed_out(start, operations, id) == record.rounds
                &&& record.rounds <= budget
                &&& record.completed_round <= record.rounds
            }
        }),
{
    restart_laws::law_a_new_store_stands_at_the_checkpoint(identity, budget, limits, now);
    let start = EvidenceModel::opened(StoreModel::nothing(), identity, budget, limits, now)->Ok_0;
    let stamped = StoreModel {
        meta: Some(store::StoreMeta { schema: store::SCHEMA, identity }),
        ..StoreModel::nothing()
    };
    assert(stamped.write_all(Seq::empty()) == stamped);
    lemma_run_tallied(start, operations, budget);
    law_every_run_keeps_the_store_healthy(start, operations);
    let end = start.run(operations);
    let handed = |id: OccurrenceId| total_handed_out(start, operations, id);
    assert(handed(id) <= budget);
    if end.occurrence(id) is Some {
        assert(end.store.records.contains_key(id.key_bytes()));
        assert(model::sound_record(end.store.records[id.key_bytes()]));
    }
}

} // verus!
