//! What both chains show: source blocks, their receipts, and finalized target blocks.

use crate::bytes;
use crate::evidence;
use crate::evidence::intake_laws;
use crate::evidence::model;
use crate::evidence::model::EvidenceModel;
use crate::evidence::{EvidenceError, EvidenceStore, Progress, SourceBlock};
use crate::fold;
use crate::source::{FinalizedBlock, TxMetadata};
use crate::state;
use crate::state::{BlockCursor, Incident, IncidentModel, Occurrence, OccurrenceId, ReceiptSummary, TargetObservation, TxLocation};
use crate::store;
use crate::store::{DiskUsage, Write, WriteModel};
use crate::table;
use crate::table::Table;
use crate::words::B256;
use vstd::prelude::*;

verus! {

impl SourceBlock {
    /// Whether two source blocks say the same.
    pub fn same(&self, other: &SourceBlock) -> (r: bool)
        ensures
            r == (self@ == other@),
    {
        if self.cursor != other.cursor || self.timestamp_ms != other.timestamp_ms
            || self.hashes.len() != other.hashes.len() || self.occurrences.len()
            != other.occurrences.len() {
            return false;
        }
        let mut i: usize = 0;
        while i < self.hashes.len()
            invariant
                i <= self.hashes@.len(),
                self.hashes@.len() == other.hashes@.len(),
                forall|j: int| 0 <= j < i ==> self.hashes@[j] == other.hashes@[j],
            decreases self.hashes@.len() - i,
        {
            if self.hashes[i] != other.hashes[i] {
                assert(self@.hashes[i as int] != other@.hashes[i as int]);
                return false;
            }
            i += 1;
        }
        let mut k: usize = 0;
        while k < self.occurrences.len()
            invariant
                k <= self.occurrences@.len(),
                self.occurrences@.len() == other.occurrences@.len(),
                forall|j: int| 0 <= j < k ==> self.occurrences@[j] == other.occurrences@[j],
            decreases self.occurrences@.len() - k,
        {
            if self.occurrences[k] != other.occurrences[k] {
                assert(self@.occurrences[k as int] != other@.occurrences[k as int]);
                return false;
            }
            k += 1;
        }
        assert(self@.hashes =~= other@.hashes);
        assert(self@.occurrences =~= other@.occurrences);
        true
    }
}

impl EvidenceStore {
    /// Commit exact bytes and source identity before any request can be submitted. Receipt
    /// observation may independently enrich these records while submission is in flight.
    pub fn prepare_block_at(
        &mut self,
        block: FinalizedBlock,
        usage: DiskUsage,
        now: u64,
    ) -> (r: Result<Vec<OccurrenceId>, EvidenceError>)
        requires
            old(self).wf(),
            old(self)@.progress.source.height < u64::MAX,
            old(self)@.progress.source_transactions + block.transactions@.len() <= u64::MAX,
        ensures
            final(self).wf(),
            evidence::ran(
                old(self)@,
                final(self)@,
                old(self)@.prepare(block.cursor, block.timestamp_ms, block.transactions@, usage, now),
                (match r {
                    Ok(ids) => Ok(ids@),
                    Err(error) => Err(error),
                }),
            ),
            old(self)@.healthy() ==> final(self)@.healthy(),
    {
        let cursor = block.cursor;
        let ghost transactions = block.transactions@;
        if cursor.height != self.progress.source.height + 1 {
            return Err(EvidenceError::SourceNotContiguous);
        }
        if !self.limits.admits(usage) {
            return Err(EvidenceError::DiskLimit);
        }
        let mut writes: Vec<Write> = Vec::new();
        let mut progress = self.progress;
        let mut records: Table<Occurrence> = Table::new();
        let mut hashes: Vec<B256> = Vec::new();
        let mut occurrences: Vec<OccurrenceId> = Vec::new();
        let ghost check = self@.preparation_error(cursor, transactions);
        let ghost part = self@.fresh_writes(cursor, transactions);
        assert(store::writes_view(writes@) =~= fold::gathered(0, part));
        let mut i: usize = 0;
        while i < block.transactions.len()
            invariant
                i <= block.transactions@.len(),
                transactions == block.transactions@,
                cursor == block.cursor,
                self.wf(),
                *self == *old(self),
                self@.progress.source_transactions + transactions.len() <= u64::MAX,
                self@.progress.source.height + 1 == cursor.height,
                self@.limits.admits_spec(usage),
                check == self@.preparation_error(cursor, transactions),
                part == self@.fresh_writes(cursor, transactions),
                forall|j: int| 0 <= j < i ==> (#[trigger] check(j)) is None,
                records.wf(),
                records@ == self@.prepared_records(cursor, block.timestamp_ms, transactions, now, i as nat),
                occurrences@ == EvidenceModel::prepared_ids(cursor, transactions, i as nat),
                hashes@.len() == i,
                forall|j: int| 0 <= j < i ==> hashes@[j] == (#[trigger] transactions[j]).hash,
                store::writes_view(writes@) == fold::gathered(i as nat, part),
                progress == (Progress {
                    source_transactions: (self@.progress.source_transactions + writes@.len()) as u64,
                    ..self@.progress
                }),
                writes@.len() <= i,
            decreases block.transactions@.len() - i,
        {
            let tx = &block.transactions[i];
            let ghost checked = check(i as int);
            let ghost written = store::writes_view(writes@);
            proof {
                if check(i as int) is Some {
                    fold::lemma_error_at(transactions.len(), check, i as int);
                }
            }
            hashes.push(tx.hash);
            let class = match TxMetadata::from_envelope(tx) {
                Ok(class) => class,
                Err(_) => {
                    return Err(EvidenceError::UnknownSigner);
                },
            };
            if let TxMetadata::Replayable(transaction) = class {
                if i as u64 > u32::MAX as u64 {
                    return Err(EvidenceError::TooManyTransactions);
                }
                let id = OccurrenceId { source_height: cursor.height, source_index: i as u32 };
                assert(id == EvidenceModel::occurrence_at(cursor, i as int));
                let record = match self.occurrence(id) {
                    Some(record) => {
                        if !(record.source.block == cursor && record.raw == tx.raw) {
                            assert(record.raw@ =~= tx.raw@ ==> record.source.block != cursor);
                            return Err(EvidenceError::SourceOccurrenceChanged);
                        }
                        assert(record.raw@ =~= tx.raw@);
                        assert(written + part(i as int) =~= written);
                        record
                    },
                    None => {
                        progress.source_transactions = progress.source_transactions + 1;
                        let write = Write::Hash {
                            key: state::index_key_vec(transaction.hash, id),
                            present: true,
                        };
                        proof {
                            evidence::lemma_pushed(writes@, write);
                            assert(written.push(write@) =~= written + part(i as int));
                        }
                        writes.push(write);
                        Occurrence {
                            source: TxLocation {
                                block: cursor,
                                index: id.source_index,
                                timestamp_ms: block.timestamp_ms,
                            },
                            transaction,
                            raw: tx.raw.clone(),
                            source_receipt: None,
                            target: None,
                            queued_at_ms: now,
                            last_queued_at_ms: 0,
                            target_at_dispatch: self.progress.target,
                            rounds: 0,
                            completed_round: 0,
                            in_flight: false,
                            interrupted_rounds: 0,
                            attempts: Vec::new(),
                        }
                    },
                };
                assert(record@ =~= (match self@.occurrence(id) {
                    Some(stored) => stored,
                    None => self@.fresh_record(
                        cursor,
                        block.timestamp_ms,
                        i as int,
                        transaction,
                        transactions[i as int].raw@,
                        now,
                    ),
                }));
                occurrences.push(id);
                records.put(id.key_vec(), record);
            } else {
                assert(written + part(i as int) =~= written);
            }
            i += 1;
        }
        proof {
            fold::lemma_no_error(transactions.len(), check);
        }
        let prepared = SourceBlock {
            cursor,
            timestamp_ms: block.timestamp_ms,
            hashes,
            occurrences: occurrences.clone(),
        };
        assert(prepared@ =~= EvidenceModel::prepared_block(cursor, block.timestamp_ms, transactions));
        let ghost fresh = store::writes_view(writes@);
        let ghost kept = records@;
        if let Some(previous) = self.source_block(cursor.height) {
            if !previous.same(&prepared) {
                return Err(EvidenceError::PreparedBlockChanged);
            }
        }
        let ghost said = prepared@;
        let write = Write::Block {
            key: Self::height_key_vec(cursor.height),
            value: Some(prepared),
        };
        proof {
            evidence::lemma_pushed(writes@, write);
            assert(fresh.len() == writes@.len());
        }
        writes.push(write);
        if let Err(error) = self.reconcile(&mut writes, &mut records, Vec::new()) {
            return Err(error);
        }
        proof {
            if self@.healthy() {
                intake_laws::law_preparation_records_every_relayed_transaction(
                    self@,
                    cursor,
                    block.timestamp_ms,
                    transactions,
                    usage,
                    now,
                );
            }
        }
        self.commit(writes, Some(progress));
        Ok(occurrences)
    }

    /// Prepares a source block at the machine's time.
    pub fn prepare_block(&mut self, block: FinalizedBlock, usage: DiskUsage) -> (r: Result<
        Vec<OccurrenceId>,
        EvidenceError,
    >)
        requires
            old(self).wf(),
            old(self)@.progress.source.height < u64::MAX,
            old(self)@.progress.source_transactions + block.transactions@.len() <= u64::MAX,
        ensures
            final(self).wf(),
            exists|now: u64|
                evidence::ran(
                    old(self)@,
                    final(self)@,
                    #[trigger] old(self)@.prepare(
                        block.cursor,
                        block.timestamp_ms,
                        block.transactions@,
                        usage,
                        now,
                    ),
                    (match r {
                        Ok(ids) => Ok(ids@),
                        Err(error) => Err(error),
                    }),
                ),
            old(self)@.healthy() ==> final(self)@.healthy(),
    {
        self.prepare_block_at(block, usage, crate::now_ms())
    }

    /// Records the receipts of a source block with its occurrences.
    pub fn source_receipts(
        &mut self,
        block: SourceBlock,
        receipts: Vec<ReceiptSummary>,
    ) -> (r: Result<(), EvidenceError>)
        requires
            old(self).wf(),
            old(self)@.progress.source_receipts.height < u64::MAX,
            block.cursor.height == old(self)@.progress.source_receipts.height + 1
                && receipts@.len() == block.hashes@.len() ==> old(self)@.receipts_cover(block@, receipts@),
        ensures
            final(self).wf(),
            evidence::ran(
                old(self)@,
                final(self)@,
                old(self)@.observe_source(block@, receipts@),
                r,
            ),
            old(self)@.healthy() && intake_laws::stored_block(old(self)@, block@)
                ==> final(self)@.healthy(),
    {
        if block.cursor.height != self.progress.source_receipts.height + 1 {
            return Err(EvidenceError::ReceiptsNotContiguous);
        }
        if receipts.len() != block.hashes.len() {
            return Err(EvidenceError::ReceiptCountMismatch);
        }
        let ghost ids = block.occurrences@;
        let ghost part = |i: int|
            self@.record_writes(
                EvidenceModel::with_source_receipt(
                    self@.store.records[ids[i].key_bytes()],
                    receipts@[ids[i].source_index as int],
                ),
            );
        let mut writes: Vec<Write> = Vec::new();
        let mut progress = self.progress;
        assert(store::writes_view(writes@) =~= fold::gathered(0, part));
        let mut i: usize = 0;
        while i < block.occurrences.len()
            invariant
                i <= block.occurrences@.len(),
                ids == block.occurrences@,
                self.wf(),
                *self == *old(self),
                block.cursor.height == self@.progress.source_receipts.height + 1,
                receipts@.len() == block.hashes@.len(),
                self@.receipts_cover(block@, receipts@),
                forall|j: int| 0 <= j < i ==> self@.occurrence(#[trigger] ids[j]) is Some,
                part == (|i: int|
                    self@.record_writes(
                        EvidenceModel::with_source_receipt(
                            self@.store.records[ids[i].key_bytes()],
                            receipts@[ids[i].source_index as int],
                        ),
                    )),
                store::writes_view(writes@) == fold::gathered(i as nat, part),
            decreases block.occurrences@.len() - i,
        {
            let id = block.occurrences[i];
            let mut record = match self.occurrence(id) {
                Some(record) => record,
                None => {
                    return Err(EvidenceError::MissingReceiptOccurrence);
                },
            };
            assert(block@.occurrences[i as int].source_index < receipts@.len());
            record.source_receipt = Some(receipts[id.source_index as usize]);
            assert(record@ =~= EvidenceModel::with_source_receipt(
                self@.store.records[id.key_bytes()],
                receipts@[id.source_index as int],
            ));
            self.put_record(&mut writes, &record);
            i += 1;
        }
        progress.source_receipts = block.cursor;
        if progress.source.height >= block.cursor.height {
            let write = Write::Block {
                key: Self::height_key_vec(block.cursor.height),
                value: None,
            };
            proof {
                evidence::lemma_pushed(writes@, write);
            }
            writes.push(write);
        }
        proof {
            if self@.healthy() && intake_laws::stored_block(self@, block@) {
                intake_laws::law_receipts_go_to_their_occurrences(self@, block@, receipts@);
            }
        }
        self.commit(writes, Some(progress));
        Ok(())
    }

    /// Files an incident under the next number.
    fn put_incident(writes: &mut Vec<Write>, progress: &mut Progress, incident: Incident)
        requires
            old(progress).incident_sequence < u64::MAX,
        ensures
            *final(progress) == (Progress {
                incident_sequence: (old(progress).incident_sequence + 1) as u64,
                ..*old(progress)
            }),
            store::writes_view(final(writes)@) == store::writes_view(old(writes)@).push(
                EvidenceModel::incident_write(
                    incident@,
                    (old(progress).incident_sequence + 1) as nat,
                ),
            ),
    {
        progress.incident_sequence = progress.incident_sequence + 1;
        let mut key: Vec<u8> = Vec::new();
        bytes::push_be(&mut key, incident.observed_at_ms as u128, 8);
        bytes::push_be(&mut key, progress.incident_sequence as u128, 8);
        assert(key@ =~= model::incident_key(incident.observed_at_ms, progress.incident_sequence as nat));
        let kept = Incident {
            observed_at_ms: incident.observed_at_ms,
            stage: incident.stage.clone(),
            message: store::bounded_error(incident.message.clone()),
            history_failure: incident.history_failure,
        };
        let write = Write::Incident { key, value: kept };
        proof {
            evidence::lemma_pushed(writes@, write);
            assert(kept@ =~= (IncidentModel { message: store::bounded(incident@.message), ..incident@ }));
        }
        writes.push(write);
    }

    /// Records a finalized target block: its occurrences are matched, its incidents filed, and an
    /// open stall ends.
    pub fn observe_target_at(
        &mut self,
        cursor: BlockCursor,
        timestamp_ms: u64,
        observations: Vec<TargetObservation>,
        system_txs: u64,
        failures: Vec<Incident>,
        usage: DiskUsage,
        now: u64,
    ) -> (r: Result<(), EvidenceError>)
        requires
            old(self).wf(),
            old(self)@.progress.target.height < u64::MAX,
            old(self)@.progress.system_transactions + system_txs <= u64::MAX,
            old(self)@.progress.system_failures + failures@.len() <= u64::MAX,
            old(self)@.progress.incident_sequence + failures@.len() + (
                if old(self)@.progress.stall_open { 1int } else { 0int }) <= u64::MAX,
        ensures
            final(self).wf(),
            evidence::ran(
                old(self)@,
                final(self)@,
                old(self)@.observe(
                    cursor,
                    timestamp_ms,
                    observations@,
                    system_txs,
                    state::incidents_view(failures@),
                    usage,
                    now,
                ),
                r,
            ),
            old(self)@.healthy() && intake_laws::of_block(cursor, observations@)
                ==> final(self)@.healthy(),
    {
        if cursor.height != self.progress.target.height + 1 {
            return Err(EvidenceError::TargetNotContiguous);
        }
        if !self.limits.admits(usage) {
            return Err(EvidenceError::DiskLimit);
        }
        let ghost said = state::incidents_view(failures@);
        let mut writes: Vec<Write> = Vec::new();
        let mut records: Table<Occurrence> = Table::new();
        if let Err(error) = self.reconcile(&mut writes, &mut records, observations) {
            return Err(error);
        }
        let ghost matched = self@.reconcile_writes(Map::empty(), observations@);
        assert(store::writes_view(writes@) =~= matched);
        let mut progress = self.progress;
        progress.target = cursor;
        progress.target_timestamp_ms = timestamp_ms;
        progress.last_target_progress_ms = now;
        progress.system_transactions = progress.system_transactions + system_txs;
        progress.system_failures = progress.system_failures + failures.len() as u64;
        let ghost start = progress;
        let ghost sequence = self@.progress.incident_sequence as nat;
        let ghost part = |i: int| seq![EvidenceModel::incident_write(said[i], (sequence + i + 1) as nat)];
        assert(matched + fold::gathered(0, part) =~= matched);
        let mut i: usize = 0;
        while i < failures.len()
            invariant
                i <= failures@.len(),
                said == state::incidents_view(failures@),
                sequence == start.incident_sequence,
                sequence + failures@.len() <= u64::MAX,
                progress == (Progress { incident_sequence: (sequence + i) as u64, ..start }),
                part == (|i: int| seq![EvidenceModel::incident_write(said[i], (sequence + i + 1) as nat)]),
                store::writes_view(writes@) == matched + fold::gathered(i as nat, part),
                fold::gathered(i as nat, part).len() == i,
            decreases failures@.len() - i,
        {
            assert(said[i as int] == failures@[i as int]@);
            let ghost written = store::writes_view(writes@);
            Self::put_incident(&mut writes, &mut progress, failures[i].clone());
            proof {
                assert(store::writes_view(writes@) =~= matched + (fold::gathered(i as nat, part) + part(i as int)));
            }
            i += 1;
        }
        let ghost filed = fold::gathered(said.len(), part);
        if progress.stall_open {
            let resumed = Incident {
                observed_at_ms: now,
                stage: "target_finality".to_owned(),
                message: "finality resumed".to_owned(),
                history_failure: false,
            };
            assert(resumed@ =~= EvidenceModel::resumed(now));
            Self::put_incident(&mut writes, &mut progress, resumed);
            progress.stall_open = false;
            assert(store::writes_view(writes@) =~= matched + (filed + seq![
                EvidenceModel::incident_write(EvidenceModel::resumed(now), sequence + said.len() + 1),
            ]));
        } else {
            assert(filed + Seq::<WriteModel>::empty() =~= filed);
        }
        proof {
            if self@.healthy() && intake_laws::of_block(cursor, observations@) {
                intake_laws::law_observation_consumes_each_target_once(
                    self@,
                    cursor,
                    timestamp_ms,
                    observations@,
                    system_txs,
                    said,
                    usage,
                    now,
                );
            }
        }
        self.commit(writes, Some(progress));
        Ok(())
    }

    /// Records a finalized target block at the machine's time.
    pub fn observe_target(
        &mut self,
        cursor: BlockCursor,
        timestamp_ms: u64,
        observations: Vec<TargetObservation>,
        system_txs: u64,
        failures: Vec<Incident>,
        usage: DiskUsage,
    ) -> (r: Result<(), EvidenceError>)
        requires
            old(self).wf(),
            old(self)@.progress.target.height < u64::MAX,
            old(self)@.progress.system_transactions + system_txs <= u64::MAX,
            old(self)@.progress.system_failures + failures@.len() <= u64::MAX,
            old(self)@.progress.incident_sequence + failures@.len() + (
                if old(self)@.progress.stall_open { 1int } else { 0int }) <= u64::MAX,
        ensures
            final(self).wf(),
            exists|now: u64|
                evidence::ran(
                    old(self)@,
                    final(self)@,
                    #[trigger] old(self)@.observe(
                        cursor,
                        timestamp_ms,
                        observations@,
                        system_txs,
                        state::incidents_view(failures@),
                        usage,
                        now,
                    ),
                    r,
                ),
            old(self)@.healthy() && intake_laws::of_block(cursor, observations@)
                ==> final(self)@.healthy(),
    {
        self.observe_target_at(
            cursor,
            timestamp_ms,
            observations,
            system_txs,
            failures,
            usage,
            crate::now_ms(),
        )
    }

    /// Records an incident at the machine's time.
    pub fn incident(&mut self, stage: &str, message: String, history_failure: bool)
        requires
            old(self).wf(),
            old(self)@.progress.incident_sequence < u64::MAX,
            history_failure ==> old(self)@.progress.history_failures < u64::MAX,
            !history_failure ==> old(self)@.progress.observation_failures < u64::MAX,
        ensures
            final(self).wf(),
            exists|now: u64|
                final(self)@ == old(self)@.settle(
                    Some(#[trigger] old(self)@.report(stage@, message@, history_failure, now)),
                ),
            old(self)@.healthy() ==> final(self)@.healthy(),
    {
        self.incident_at(stage, message, history_failure, crate::now_ms())
    }

    /// Checks for a stall at the machine's time.
    pub fn check_stall(&mut self, threshold_ms: u64)
        requires
            old(self).wf(),
            threshold_ms == 0 || old(self)@.progress.stall_open || old(self)@.progress.incident_sequence < u64::MAX,
        ensures
            final(self).wf(),
            exists|now: u64|
                final(self)@ == old(self)@.settle(#[trigger] old(self)@.check(threshold_ms, now)),
            old(self)@.healthy() ==> final(self)@.healthy(),
    {
        self.check_stall_at(threshold_ms, crate::now_ms())
    }

    /// Records an incident and counts it as a failure of history or of observation.
    pub fn incident_at(&mut self, stage: &str, message: String, history_failure: bool, now: u64)
        requires
            old(self).wf(),
            old(self)@.progress.incident_sequence < u64::MAX,
            history_failure ==> old(self)@.progress.history_failures < u64::MAX,
            !history_failure ==> old(self)@.progress.observation_failures < u64::MAX,
        ensures
            final(self).wf(),
            final(self)@ == old(self)@.settle(
                Some(old(self)@.report(stage@, message@, history_failure, now)),
            ),
            old(self)@.healthy() ==> final(self)@.healthy(),
    {
        let mut progress = self.progress;
        if history_failure {
            progress.history_failures = progress.history_failures + 1;
        } else {
            progress.observation_failures = progress.observation_failures + 1;
        }
        let mut writes: Vec<Write> = Vec::new();
        let incident = Incident {
            observed_at_ms: now,
            stage: stage.to_owned(),
            message,
            history_failure,
        };
        Self::put_incident(&mut writes, &mut progress, incident);
        assert(store::writes_view(writes@) =~= self@.report(
            stage@,
            message@,
            history_failure,
            now,
        ).writes);
        proof {
            if self@.healthy() {
                intake_laws::law_incidents_touch_no_record(
                    self@,
                    stage@,
                    message@,
                    history_failure,
                    now,
                );
            }
        }
        self.commit(writes, Some(progress));
    }

    /// Opens a stall, with one incident, when the target has made no progress for the threshold.
    pub fn check_stall_at(&mut self, threshold_ms: u64, now: u64)
        requires
            old(self).wf(),
            old(self)@.stalls(threshold_ms, now) ==> old(self)@.progress.incident_sequence < u64::MAX,
        ensures
            final(self).wf(),
            final(self)@ == old(self)@.settle(old(self)@.check(threshold_ms, now)),
            old(self)@.healthy() ==> final(self)@.healthy(),
    {
        if threshold_ms == 0 || self.progress.stall_open || now.saturating_sub(
            self.progress.last_target_progress_ms,
        ) < threshold_ms {
            return;
        }
        let mut progress = self.progress;
        progress.stall_open = true;
        let mut writes: Vec<Write> = Vec::new();
        let stalled = Incident {
            observed_at_ms: now,
            stage: "target_finality".to_owned(),
            message: "no finalized target progress within configured horizon".to_owned(),
            history_failure: false,
        };
        assert(stalled@ =~= EvidenceModel::stalled(now));
        Self::put_incident(&mut writes, &mut progress, stalled);
        assert(store::writes_view(writes@) =~= self@.check(threshold_ms, now).unwrap().writes);
        proof {
            if self@.healthy() {
                intake_laws::law_a_stall_is_opened_once(self@, threshold_ms, now, now);
            }
        }
        self.commit(writes, Some(progress));
    }

    /// The incidents of a period in the order of their times and numbers, at most a thousand.
    pub fn incidents(&self, from_ms: u64, to_ms: u64) -> (r: Vec<Incident>)
        requires
            self.wf(),
        ensures
            state::incidents_view(r@) == self@.incident_keys(from_ms, to_ms).map_values(
                |key: Seq<u8>| self@.store.incidents[key],
            ),
    {
        let mut start: Vec<u8> = Vec::new();
        bytes::push_be(&mut start, from_ms as u128, 8);
        let mut end: Vec<u8> = Vec::new();
        bytes::push_be(&mut end, to_ms as u128, 8);
        bytes::push_be(&mut end, u64::MAX as u128, 8);
        proof {
            bytes::lemma_span16();
            bytes::lemma_be_ones(8);
            assert(start@ =~= bytes::be(from_ms as nat, 8));
            assert(end@ =~= bytes::be(to_ms as nat, 8) + Seq::new(8, |i: int| 0xffu8));
        }
        let found = self.store.incident_keys(start.as_slice(), end.as_slice(), 1000);
        let ghost keys = self@.incident_keys(from_ms, to_ms);
        proof {
            self.store.lemma_listings();
            table::lemma_in_range(self@.store.incidents, start@, end@, 1000);
        }
        let mut out: Vec<Incident> = Vec::new();
        let mut i: usize = 0;
        while i < found.len()
            invariant
                i <= found@.len(),
                self.wf(),
                table::key_views(found@) == keys,
                forall|j: int| 0 <= j < keys.len() ==> self@.store.incidents.contains_key(#[trigger] keys[j]),
                out@.len() == i,
                forall|j: int| 0 <= j < i ==> (#[trigger] out@[j])@ == self@.store.incidents[keys[j]],
            decreases found@.len() - i,
        {
            assert(found@[i as int]@ == keys[i as int]);
            if let Some(incident) = self.store.incident(found[i].as_slice()) {
                out.push(incident.clone());
            }
            i += 1;
        }
        assert(keys.len() == found@.len());
        assert(state::incidents_view(out@) =~= keys.map_values(|key: Seq<u8>| self@.store.incidents[key]));
        out
    }
}

} // verus!
