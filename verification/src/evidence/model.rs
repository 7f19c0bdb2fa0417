//! What each operation of the evidence store does, over what the store holds.

use crate::bytes;
use crate::evidence::{EvidenceError, Progress, SourceBlockModel};
use crate::fold;
use crate::source::{Envelope, ReplayMetadata, TxMetadata};
use crate::state;
use crate::state::{AttemptModel, BlockCursor, Disposition, IncidentModel, OccurrenceId, OccurrenceModel, ReceiptSummary, ReplayIdentity, TargetObservation, TxLocation};
use crate::store::{CommitModel, DiskUsage, StoreLimits, StoreMeta, StoreModel, WriteModel, SCHEMA};
use crate::table;
use crate::words::B256;
use vstd::prelude::*;

verus! {

/// How many source blocks behind the cursor a failed submission is still retried.
pub const RECOVERY_BLOCKS: u64 = 64;

/// How many attempts a record may hold.
pub const MAX_ATTEMPTS: usize = 40;

/// How many occurrences of one hash are looked up at once.
pub const MAX_REPEATS: usize = 1000;

/// How many entries of an index one sweep reads.
pub const SWEEP: usize = 10_000;

/// What a column holds under a key.
pub open spec fn lookup<V>(column: Map<Seq<u8>, V>, key: Seq<u8>) -> Option<V> {
    if column.contains_key(key) {
        Some(column[key])
    } else {
        None
    }
}

/// The key of a source block: its height in 8 bytes.
pub open spec fn height_key(height: u64) -> Seq<u8> {
    bytes::be(height as nat, 8)
}

/// The key of an incident: its time in 8 bytes, then its number in 8.
pub open spec fn incident_key(observed_at_ms: u64, sequence: nat) -> Seq<u8> {
    bytes::be(observed_at_ms as nat, 8) + bytes::be(sequence, 8)
}

/// Where a target occurrence stands, as a key.
pub open spec fn location(target: TargetObservation) -> OccurrenceId {
    OccurrenceId {
        source_height: target.location.block.height,
        source_index: target.location.index,
    }
}

/// The key of a target occurrence that is not matched: its hash, then its place.
pub open spec fn target_key(target: TargetObservation) -> Seq<u8> {
    state::index_key(target.transaction_hash, location(target))
}

/// An occurrence that is handed out for submission.
#[verifier::ext_equal]
pub struct DispatchModel {
    pub id: OccurrenceId,
    pub transaction: ReplayMetadata,
    pub raw: Seq<u8>,
    pub queued_at_ms: u64,
    pub target_observed: BlockCursor,
    pub uncertain_delivery: bool,
}

/// The outcome of a submission.
#[verifier::ext_equal]
pub struct CompletedModel {
    pub id: OccurrenceId,
    pub attempts: Seq<AttemptModel>,
}

/// What an evidence store holds.
#[verifier::ext_equal]
pub struct EvidenceModel {
    pub store: StoreModel,
    pub max_rounds: u32,
    pub limits: StoreLimits,
    pub progress: Progress,
    pub journal: Seq<CommitModel>,
}

/// The commit of an operation, if it makes one, and what it returns.
pub type Outcome<T> = Result<(Option<CommitModel>, T), EvidenceError>;

// Records.

/// The counters of a record fit together: no more rounds ended, by an outcome or by an
/// interruption, than were begun.
pub open spec fn sound_record(record: OccurrenceModel) -> bool {
    &&& record.completed_round <= record.rounds
    &&& record.in_flight ==> record.completed_round < record.rounds
    &&& record.interrupted_rounds + (if record.in_flight { 1int } else { 0int }) <= record.rounds
    &&& record.attempts.len() <= MAX_ATTEMPTS
}

/// A submission with a committed outcome that no round has reopened.
pub open spec fn settled(record: OccurrenceModel) -> bool {
    !record.in_flight && record.rounds > 0 && record.rounds == record.completed_round
}

/// An earlier submission may have reached the target.
pub open spec fn delivery_uncertain(record: OccurrenceModel) -> bool {
    record.unfinished_round() || (record.attempts.len() > 0 && record.attempts.last().uncertain())
}

/// The record after its open round, if it has one, was given up.
pub open spec fn interrupted(record: OccurrenceModel) -> OccurrenceModel {
    OccurrenceModel {
        in_flight: false,
        interrupted_rounds: if record.in_flight {
            (record.interrupted_rounds + 1) as u32
        } else {
            record.interrupted_rounds
        },
        ..record
    }
}

/// The record after the outcome of its open round was committed.
pub open spec fn completed_record(
    record: OccurrenceModel,
    attempts: Seq<AttemptModel>,
) -> OccurrenceModel {
    OccurrenceModel {
        in_flight: false,
        completed_round: record.rounds,
        attempts: record.attempts + attempts,
        ..record
    }
}

impl EvidenceModel {
    /// The record of an occurrence.
    pub open spec fn occurrence(self, id: OccurrenceId) -> Option<OccurrenceModel> {
        lookup(self.store.records, id.key_bytes())
    }

    /// Every record is sound.
    pub open spec fn sound(self) -> bool {
        forall|key: Seq<u8>| #[trigger]
            self.store.records.contains_key(key) ==> sound_record(self.store.records[key])
    }

    /// The interruptions of these occurrences can be counted: none whose round is open has been
    /// interrupted as often as the counter holds.
    pub open spec fn countable(self, ids: Seq<OccurrenceId>) -> bool {
        forall|i: int| 0 <= i < ids.len() ==> (self.occurrence(#[trigger] ids[i]) matches Some(record)
            ==> record.in_flight ==> record.interrupted_rounds < u32::MAX)
    }

    /// The state after an operation that made this commit, or none.
    pub open spec fn settle(self, commit: Option<CommitModel>) -> EvidenceModel {
        match commit {
            None => self,
            Some(commit) => EvidenceModel {
                store: self.store.commit(commit),
                progress: match commit.progress {
                    Some(progress) => progress,
                    None => self.progress,
                },
                journal: self.journal.push(commit),
                ..self
            },
        }
    }

    /// The target's clock, with an allowance of three seconds, has passed the signed window.
    pub open spec fn expired(self, record: OccurrenceModel) -> bool {
        record.transaction.valid_before matches Some(expiry) && expiry
            <= self.progress.target_timestamp_ms / 1000 + 3
    }

    /// A recovery sweep still has work for this record: an open round to close, whatever became of
    /// it, or, while it is not on the target, rounds are left and the window is open, an unknown
    /// delivery or a state-dependent rejection.
    pub open spec fn recoverable(self, record: OccurrenceModel) -> bool {
        record.in_flight || {
            &&& record.target is None
            &&& record.rounds < self.max_rounds
            &&& !self.expired(record)
            &&& record.unfinished_round() || (if record.attempts.len() == 0 {
                record.rounds > 0
            } else {
                let last = record.attempts.last();
                last.disposition == Disposition::Ambiguous || (last.disposition
                    == Disposition::Rejected && (last.failure matches Some(failure)
                    && failure.retry_after_head()))
            })
        }
    }

    /// The writes that file a record and bring its indexes in line with it.
    pub open spec fn record_writes(self, record: OccurrenceModel) -> Seq<WriteModel> {
        let key = record.id().key_bytes();
        seq![
            WriteModel::Record { key, value: Some(record) },
            WriteModel::Clean { key, present: record.clean_inclusion() },
            WriteModel::Pending { key, present: record.target is None },
            WriteModel::Recovery { key, present: self.recoverable(record) },
        ]
    }

    // Lookup by hash.

    /// The index keys of a hash, one more than may be looked up.
    pub open spec fn hash_keys(self, hash: B256) -> Seq<Seq<u8>> {
        table::under_prefix(self.store.hashes, hash.bytes(), (MAX_REPEATS + 1) as nat)
    }

    /// What is wrong with the index key at a position, if anything is.
    pub open spec fn hash_key_error(self, keys: Seq<Seq<u8>>) -> spec_fn(int) -> Option<EvidenceError> {
        |i: int|
            match state::decoded(keys[i].skip(32)) {
                None => Some(EvidenceError::InvalidHashIndex),
                Some(id) => if self.occurrence(id) is None {
                    Some(EvidenceError::MissingIndexedOccurrence)
                } else {
                    None
                },
            }
    }

    /// Why the occurrences of a hash cannot be looked up, if they cannot.
    pub open spec fn by_hash_error(self, hash: B256) -> Option<EvidenceError> {
        let keys = self.hash_keys(hash);
        if keys.len() > MAX_REPEATS {
            Some(EvidenceError::TooManyOccurrences)
        } else {
            fold::first_error(keys.len(), self.hash_key_error(keys))
        }
    }

    /// The occurrence that an index key files, with its record.
    pub open spec fn indexed(self, key: Seq<u8>) -> (OccurrenceId, OccurrenceModel) {
        let id = state::decoded(key.skip(32)).unwrap();
        (id, self.store.records[id.key_bytes()])
    }

    /// The occurrences of a hash in source order, with their records.
    pub open spec fn by_hash(self, hash: B256) -> Seq<(OccurrenceId, OccurrenceModel)> {
        self.hash_keys(hash).map_values(|key: Seq<u8>| self.indexed(key))
    }

    // Matching of target occurrences.

    /// The target occurrences of a list, by key.
    pub open spec fn by_target_key(targets: Seq<TargetObservation>) -> Map<Seq<u8>, TargetObservation>
        decreases targets.len(),
    {
        if targets.len() == 0 {
            Map::empty()
        } else {
            Self::by_target_key(targets.drop_last()).insert(target_key(targets.last()), targets.last())
        }
    }

    /// A target occurrence that repeats one before it in the list.
    pub open spec fn repeated_target(targets: Seq<TargetObservation>) -> spec_fn(int) -> Option<EvidenceError> {
        |i: int|
            if exists|j: int| 0 <= j < i && target_key(#[trigger] targets[j]) == target_key(targets[i]) {
                Some(EvidenceError::DuplicateTargetLocation)
            } else {
                None
            }
    }

    /// The writes that file a target occurrence as unmatched.
    pub open spec fn unmatched_writes(target: TargetObservation) -> Seq<WriteModel> {
        seq![
            WriteModel::Unmatched { key: target_key(target), value: Some(target) },
            WriteModel::UnmatchedByHeight {
                key: location(target).key_bytes(),
                value: Some(target_key(target)),
            },
        ]
    }

    /// The writes that remove an unmatched target occurrence.
    pub open spec fn matched_writes(key: Seq<u8>, target: TargetObservation) -> Seq<WriteModel> {
        seq![
            WriteModel::Unmatched { key, value: None },
            WriteModel::UnmatchedByHeight { key: location(target).key_bytes(), value: None },
        ]
    }

    /// The hashes that a matching is about: those of the given records and target occurrences.
    pub open spec fn hashes_of(
        records: Map<Seq<u8>, OccurrenceModel>,
        targets: Seq<TargetObservation>,
    ) -> Map<Seq<u8>, B256> {
        Map::new(
            |key: Seq<u8>| exists|hash: B256| #[trigger] hash.bytes() == key && Self::concerns(records, targets, hash),
            |key: Seq<u8>| choose|hash: B256| #[trigger] hash.bytes() == key,
        )
    }

    /// Some record or target occurrence has this hash.
    pub open spec fn concerns(
        records: Map<Seq<u8>, OccurrenceModel>,
        targets: Seq<TargetObservation>,
        hash: B256,
    ) -> bool {
        ||| exists|key: Seq<u8>| #[trigger] records.contains_key(key) && records[key].transaction.hash == hash
        ||| exists|i: int| 0 <= i < targets.len() && (#[trigger] targets[i]).transaction_hash == hash
    }

    /// The records together with the stored ones of a hash.
    pub open spec fn with_stored(
        self,
        records: Map<Seq<u8>, OccurrenceModel>,
        hash: B256,
    ) -> Map<Seq<u8>, OccurrenceModel> {
        self.with_stored_first(records, hash, self.hash_keys(hash).len())
    }

    /// The records together with the first `n` stored ones of a hash.
    pub open spec fn with_stored_first(
        self,
        records: Map<Seq<u8>, OccurrenceModel>,
        hash: B256,
        n: nat,
    ) -> Map<Seq<u8>, OccurrenceModel>
        decreases n,
    {
        if n == 0 {
            records
        } else {
            let rest = self.with_stored_first(records, hash, (n - 1) as nat);
            let (id, record) = self.indexed(self.hash_keys(hash)[n - 1]);
            if rest.contains_key(id.key_bytes()) {
                rest
            } else {
                rest.insert(id.key_bytes(), record)
            }
        }
    }

    /// The target occurrences of a hash that can be matched: stored ones and new ones.
    pub open spec fn candidates(
        self,
        fresh: Map<Seq<u8>, TargetObservation>,
        hash: B256,
    ) -> Map<Seq<u8>, TargetObservation> {
        let stored = table::under_prefix(self.store.unmatched, hash.bytes(), MAX_REPEATS as nat);
        Map::new(
            |key: Seq<u8>| stored.contains(key) || (fresh.contains_key(key) && fresh[key].transaction_hash == hash),
            |key: Seq<u8>|
                if fresh.contains_key(key) && fresh[key].transaction_hash == hash {
                    fresh[key]
                } else {
                    self.store.unmatched[key]
                },
        )
    }

    /// The records of a hash without a target occurrence, in source order.
    pub open spec fn open_records(records: Map<Seq<u8>, OccurrenceModel>, hash: B256) -> Seq<Seq<u8>> {
        table::listed(records).filter(
            |key: Seq<u8>| records[key].transaction.hash == hash && records[key].target is None,
        )
    }

    /// The records after the first `n` open ones were given the first `n` target occurrences.
    pub open spec fn assigned(
        records: Map<Seq<u8>, OccurrenceModel>,
        open: Seq<Seq<u8>>,
        keys: Seq<Seq<u8>>,
        targets: Map<Seq<u8>, TargetObservation>,
        n: nat,
    ) -> Map<Seq<u8>, OccurrenceModel>
        decreases n,
    {
        if n == 0 {
            records
        } else {
            Self::assigned(records, open, keys, targets, (n - 1) as nat).insert(
                open[n - 1],
                OccurrenceModel {
                    target: Some(targets[keys[n - 1]]),
                    ..records[open[n - 1]]
                },
            )
        }
    }

    /// How many pairs a matching of one hash makes.
    pub open spec fn pairs(open: Seq<Seq<u8>>, keys: Seq<Seq<u8>>) -> nat {
        if open.len() <= keys.len() {
            open.len()
        } else {
            keys.len()
        }
    }

    /// The records after those of one hash were matched.
    pub open spec fn matched(
        self,
        records: Map<Seq<u8>, OccurrenceModel>,
        fresh: Map<Seq<u8>, TargetObservation>,
        hash: B256,
    ) -> Map<Seq<u8>, OccurrenceModel> {
        let all = self.with_stored(records, hash);
        let targets = self.candidates(fresh, hash);
        let open = Self::open_records(all, hash);
        let keys = table::listed(targets);
        Self::assigned(all, open, keys, targets, Self::pairs(open, keys))
    }

    /// The writes of a matching of one hash.
    pub open spec fn matching_writes(
        self,
        records: Map<Seq<u8>, OccurrenceModel>,
        fresh: Map<Seq<u8>, TargetObservation>,
        hash: B256,
    ) -> Seq<WriteModel> {
        let all = self.with_stored(records, hash);
        let targets = self.candidates(fresh, hash);
        let keys = table::listed(targets);
        fold::gathered(
            Self::pairs(Self::open_records(all, hash), keys),
            |i: int| Self::matched_writes(keys[i], targets[keys[i]]),
        )
    }

    /// The records after the first `n` hashes were matched one after the other.
    pub open spec fn matched_first(
        self,
        records: Map<Seq<u8>, OccurrenceModel>,
        fresh: Map<Seq<u8>, TargetObservation>,
        hashes: Seq<B256>,
        n: nat,
    ) -> Map<Seq<u8>, OccurrenceModel>
        decreases n,
    {
        if n == 0 {
            records
        } else {
            self.matched(
                self.matched_first(records, fresh, hashes, (n - 1) as nat),
                fresh,
                hashes[n - 1],
            )
        }
    }

    /// The hashes of a matching in byte order.
    pub open spec fn hash_list(
        records: Map<Seq<u8>, OccurrenceModel>,
        targets: Seq<TargetObservation>,
    ) -> Seq<B256> {
        let hashes = Self::hashes_of(records, targets);
        table::listed(hashes).map_values(|key: Seq<u8>| hashes[key])
    }

    /// Why target occurrences cannot be matched, if they cannot.
    pub open spec fn reconcile_error(
        self,
        records: Map<Seq<u8>, OccurrenceModel>,
        targets: Seq<TargetObservation>,
    ) -> Option<EvidenceError> {
        match fold::first_error(targets.len(), Self::repeated_target(targets)) {
            Some(error) => Some(error),
            None => {
                let hashes = Self::hash_list(records, targets);
                fold::first_error(hashes.len(), |i: int| self.by_hash_error(hashes[i]))
            },
        }
    }

    /// The records of a matching: the given ones and the stored ones of the same hashes, each
    /// open one with the next target occurrence of its hash, as far as these go.
    pub open spec fn reconciled(
        self,
        records: Map<Seq<u8>, OccurrenceModel>,
        targets: Seq<TargetObservation>,
    ) -> Map<Seq<u8>, OccurrenceModel> {
        let hashes = Self::hash_list(records, targets);
        self.matched_first(records, Self::by_target_key(targets), hashes, hashes.len())
    }

    /// The writes of a matching: the new target occurrences, the removal of the matched ones, and
    /// every record that took part.
    pub open spec fn reconcile_writes(
        self,
        records: Map<Seq<u8>, OccurrenceModel>,
        targets: Seq<TargetObservation>,
    ) -> Seq<WriteModel> {
        let hashes = Self::hash_list(records, targets);
        let fresh = Self::by_target_key(targets);
        let after = self.reconciled(records, targets);
        let keys = table::listed(after);
        fold::gathered(targets.len(), |i: int| Self::unmatched_writes(targets[i])) + fold::gathered(
            hashes.len(),
            |i: int|
                self.matching_writes(
                    self.matched_first(records, fresh, hashes, i as nat),
                    fresh,
                    hashes[i],
                ),
        ) + fold::gathered(keys.len(), |i: int| self.record_writes(after[keys[i]]))
    }

    // Preparation of a source block.

    /// The occurrence at a position of a source block.
    pub open spec fn occurrence_at(cursor: BlockCursor, index: int) -> OccurrenceId {
        OccurrenceId { source_height: cursor.height, source_index: index as u32 }
    }

    /// What keeps the transaction at a position from being prepared, if anything does.
    pub open spec fn preparation_error(
        self,
        cursor: BlockCursor,
        transactions: Seq<Envelope>,
    ) -> spec_fn(int) -> Option<EvidenceError> {
        |i: int|
            match transactions[i].classified() {
                Err(_) => Some(EvidenceError::UnknownSigner),
                Ok(TxMetadata::Replayable(_)) => if i > u32::MAX {
                    Some(EvidenceError::TooManyTransactions)
                } else {
                    match self.occurrence(Self::occurrence_at(cursor, i)) {
                        Some(record) => if record.source.block == cursor && record.raw
                            == transactions[i].raw@ {
                            None
                        } else {
                            Some(EvidenceError::SourceOccurrenceChanged)
                        },
                        None => None,
                    }
                },
                Ok(_) => None,
            }
    }

    /// A record as it is before its first round.
    pub open spec fn fresh_record(
        self,
        cursor: BlockCursor,
        timestamp_ms: u64,
        index: int,
        transaction: ReplayMetadata,
        raw: Seq<u8>,
        now: u64,
    ) -> OccurrenceModel {
        OccurrenceModel {
            source: TxLocation { block: cursor, index: index as u32, timestamp_ms },
            transaction,
            raw,
            source_receipt: None,
            target: None,
            queued_at_ms: now,
            last_queued_at_ms: 0,
            target_at_dispatch: self.progress.target,
            rounds: 0,
            completed_round: 0,
            in_flight: false,
            interrupted_rounds: 0,
            attempts: Seq::empty(),
        }
    }

    /// The occurrences among the first `n` transactions of a block that are relayed.
    pub open spec fn prepared_ids(
        cursor: BlockCursor,
        transactions: Seq<Envelope>,
        n: nat,
    ) -> Seq<OccurrenceId>
        decreases n,
    {
        if n == 0 {
            Seq::empty()
        } else {
            let rest = Self::prepared_ids(cursor, transactions, (n - 1) as nat);
            if transactions[n - 1].classified() matches Ok(TxMetadata::Replayable(_)) {
                rest.push(Self::occurrence_at(cursor, n - 1))
            } else {
                rest
            }
        }
    }

    /// The records of the relayed ones among the first `n` transactions: as stored, else fresh.
    pub open spec fn prepared_records(
        self,
        cursor: BlockCursor,
        timestamp_ms: u64,
        transactions: Seq<Envelope>,
        now: u64,
        n: nat,
    ) -> Map<Seq<u8>, OccurrenceModel>
        decreases n,
    {
        if n == 0 {
            Map::empty()
        } else {
            let rest = self.prepared_records(cursor, timestamp_ms, transactions, now, (n - 1) as nat);
            match transactions[n - 1].classified() {
                Ok(TxMetadata::Replayable(transaction)) => {
                    let id = Self::occurrence_at(cursor, n - 1);
                    rest.insert(
                        id.key_bytes(),
                        match self.occurrence(id) {
                            Some(record) => record,
                            None => self.fresh_record(
                                cursor,
                                timestamp_ms,
                                n - 1,
                                transaction,
                                transactions[n - 1].raw@,
                                now,
                            ),
                        },
                    )
                },
                _ => rest,
            }
        }
    }

    /// The occurrence at a position is relayed and has no record yet.
    pub open spec fn is_fresh(self, cursor: BlockCursor, transactions: Seq<Envelope>, i: int) -> bool {
        &&& transactions[i].classified() matches Ok(TxMetadata::Replayable(_))
        &&& self.occurrence(Self::occurrence_at(cursor, i)) is None
    }

    /// The writes that file the fresh occurrences of a block under their hashes.
    pub open spec fn fresh_writes(
        self,
        cursor: BlockCursor,
        transactions: Seq<Envelope>,
    ) -> spec_fn(int) -> Seq<WriteModel> {
        |i: int|
            if self.is_fresh(cursor, transactions, i) {
                seq![
                    WriteModel::Hash {
                        key: state::index_key(transactions[i].hash, Self::occurrence_at(cursor, i)),
                        present: true,
                    },
                ]
            } else {
                Seq::empty()
            }
    }

    /// The source block that a preparation commits.
    pub open spec fn prepared_block(
        cursor: BlockCursor,
        timestamp_ms: u64,
        transactions: Seq<Envelope>,
    ) -> SourceBlockModel {
        SourceBlockModel {
            cursor,
            timestamp_ms,
            hashes: transactions.map_values(|transaction: Envelope| transaction.hash),
            occurrences: Self::prepared_ids(cursor, transactions, transactions.len()),
        }
    }

    /// What preparing a source block does.
    pub open spec fn prepare(
        self,
        cursor: BlockCursor,
        timestamp_ms: u64,
        transactions: Seq<Envelope>,
        usage: DiskUsage,
        now: u64,
    ) -> Outcome<Seq<OccurrenceId>> {
        let n = transactions.len();
        let block = Self::prepared_block(cursor, timestamp_ms, transactions);
        let records = self.prepared_records(cursor, timestamp_ms, transactions, now, n);
        let fresh = fold::gathered(n, self.fresh_writes(cursor, transactions));
        if cursor.height != self.progress.source.height + 1 {
            Err(EvidenceError::SourceNotContiguous)
        } else if !self.limits.admits_spec(usage) {
            Err(EvidenceError::DiskLimit)
        } else if let Some(error) = fold::first_error(n, self.preparation_error(cursor, transactions)) {
            Err(error)
        } else if lookup(self.store.blocks, height_key(cursor.height)) matches Some(previous) && previous
            != block {
            Err(EvidenceError::PreparedBlockChanged)
        } else if let Some(error) = self.reconcile_error(records, Seq::empty()) {
            Err(error)
        } else {
            Ok(
                (
                    Some(
                        CommitModel {
                            writes: fresh.push(
                                WriteModel::Block { key: height_key(cursor.height), value: Some(block) },
                            ) + self.reconcile_writes(records, Seq::empty()),
                            progress: Some(
                                Progress {
                                    source_transactions: (self.progress.source_transactions + fresh.len()) as u64,
                                    ..self.progress
                                },
                            ),
                        },
                    ),
                    block.occurrences,
                ),
            )
        }
    }

    // Submission rounds.

    /// A round may be opened for a record whose last round was given up or never begun.
    pub open spec fn may_dispatch(self, record: OccurrenceModel) -> bool {
        &&& record.target is None
        &&& record.rounds < self.max_rounds
        &&& !(record.rounds > 0 && self.expired(record))
    }

    /// The record after a round was begun for it, or its open round was only closed.
    pub open spec fn begun(self, record: OccurrenceModel, now: u64) -> OccurrenceModel {
        let closed = interrupted(record);
        if self.may_dispatch(closed) {
            OccurrenceModel {
                rounds: (closed.rounds + 1) as u32,
                in_flight: true,
                last_queued_at_ms: now,
                target_at_dispatch: self.progress.target,
                ..closed
            }
        } else {
            closed
        }
    }

    /// A block round leaves out what is settled; a recovery round leaves out nothing.
    pub open spec fn takes_part(record: OccurrenceModel, recovery: bool) -> bool {
        recovery || !settled(record)
    }

    /// The writes of a round for one occurrence.
    pub open spec fn round_writes(self, id: OccurrenceId, recovery: bool, now: u64) -> Seq<WriteModel> {
        let record = self.store.records[id.key_bytes()];
        if Self::takes_part(record, recovery) {
            self.record_writes(self.begun(record, now))
        } else {
            Seq::empty()
        }
    }

    /// What a round hands out for one occurrence.
    pub open spec fn round_dispatch(self, id: OccurrenceId, recovery: bool, now: u64) -> Seq<DispatchModel> {
        let record = self.store.records[id.key_bytes()];
        if Self::takes_part(record, recovery) && self.may_dispatch(interrupted(record)) {
            seq![
                DispatchModel {
                    id,
                    transaction: record.transaction,
                    raw: record.raw,
                    queued_at_ms: now,
                    target_observed: self.progress.target,
                    uncertain_delivery: delivery_uncertain(record),
                },
            ]
        } else {
            Seq::empty()
        }
    }

    /// What beginning a round does.
    pub open spec fn begin(self, ids: Seq<OccurrenceId>, recovery: bool, now: u64) -> Outcome<
        Seq<DispatchModel>,
    > {
        if exists|i: int| 0 <= i < ids.len() && self.occurrence(#[trigger] ids[i]) is None {
            Err(EvidenceError::MissingDispatchIntent)
        } else {
            Ok(
                (
                    Some(
                        CommitModel {
                            writes: fold::gathered(
                                ids.len(),
                                |i: int| self.round_writes(ids[i], recovery, now),
                            ),
                            progress: None,
                        },
                    ),
                    fold::gathered(ids.len(), |i: int| self.round_dispatch(ids[i], recovery, now)),
                ),
            )
        }
    }

    /// What is wrong with the outcome at a position, if anything is.
    pub open spec fn completion_error(self, completed: Seq<CompletedModel>) -> spec_fn(int) -> Option<
        EvidenceError,
    > {
        |i: int|
            match self.occurrence(completed[i].id) {
                None => Some(EvidenceError::MissingDispatchRecord),
                Some(record) => if !record.in_flight {
                    Some(EvidenceError::CompletedWithoutIntent)
                } else if completed[i].attempts.len() == 0 {
                    Some(EvidenceError::CompletedWithoutEvidence)
                } else if record.attempts.len() + completed[i].attempts.len() > MAX_ATTEMPTS {
                    Some(EvidenceError::AttemptBound)
                } else if exists|j: int| 0 <= j < i && (#[trigger] completed[j]).id == completed[i].id {
                    Some(EvidenceError::DuplicateCompletion)
                } else {
                    None
                },
            }
    }

    /// The record that an outcome leaves.
    pub open spec fn outcome_record(self, completed: CompletedModel) -> OccurrenceModel {
        completed_record(self.store.records[completed.id.key_bytes()], completed.attempts)
    }

    /// The record of an occurrence after the outcomes were committed.
    pub open spec fn after_outcomes(self, completed: Seq<CompletedModel>, id: OccurrenceId) -> Option<
        OccurrenceModel,
    > {
        if exists|i: int| 0 <= i < completed.len() && (#[trigger] completed[i]).id == id {
            let i = choose|i: int| 0 <= i < completed.len() && (#[trigger] completed[i]).id == id;
            Some(self.outcome_record(completed[i]))
        } else {
            self.occurrence(id)
        }
    }

    /// The progress after the first `n` outcomes.
    pub open spec fn dispatched(self, completed: Seq<CompletedModel>, n: nat) -> Progress
        decreases n,
    {
        if n == 0 {
            self.progress
        } else {
            let rest = self.dispatched(completed, (n - 1) as nat);
            let last = completed[n - 1];
            let ended = last.attempts.last().completed_at_ms;
            Progress {
                last_dispatch_ms: if rest.last_dispatch_ms >= ended {
                    rest.last_dispatch_ms
                } else {
                    ended
                },
                last_dispatch_target: self.store.records[last.id.key_bytes()].target_at_dispatch,
                ..rest
            }
        }
    }

    /// An occurrence of a block that keeps the source cursor from passing it, if any does.
    pub open spec fn unfinished(
        self,
        completed: Seq<CompletedModel>,
        occurrences: Seq<OccurrenceId>,
    ) -> spec_fn(int) -> Option<EvidenceError> {
        |i: int|
            match self.after_outcomes(completed, occurrences[i]) {
                None => Some(EvidenceError::MissingSourceOccurrence),
                Some(record) => if !record.in_flight && (record.rounds > 0 || record.target is Some) {
                    None
                } else {
                    Some(EvidenceError::UnfinishedSubmissions)
                },
            }
    }

    /// Why the source cursor cannot move to a block, if it cannot.
    pub open spec fn advance_error(self, completed: Seq<CompletedModel>, source: BlockCursor) -> Option<
        EvidenceError,
    > {
        if source.height != self.progress.source.height + 1 {
            Some(EvidenceError::SourceAdvanceNotContiguous)
        } else {
            match lookup(self.store.blocks, height_key(source.height)) {
                None => Some(EvidenceError::NoDurableIntent),
                Some(block) => if block.cursor != source {
                    Some(EvidenceError::CompletionHashMismatch)
                } else {
                    fold::first_error(
                        block.occurrences.len(),
                        self.unfinished(completed, block.occurrences),
                    )
                },
            }
        }
    }

    /// What committing the outcomes of a round does.
    pub open spec fn complete(
        self,
        completed: Seq<CompletedModel>,
        source: Option<BlockCursor>,
    ) -> Outcome<()> {
        let outcomes = fold::gathered(
            completed.len(),
            |i: int| self.record_writes(self.outcome_record(completed[i])),
        );
        let progress = self.dispatched(completed, completed.len());
        if let Some(error) = fold::first_error(completed.len(), self.completion_error(completed)) {
            Err(error)
        } else {
            match source {
                None => Ok((Some(CommitModel { writes: outcomes, progress: Some(progress) }), ())),
                Some(source) => if let Some(error) = self.advance_error(completed, source) {
                    Err(error)
                } else {
                    Ok(
                        (
                            Some(
                                CommitModel {
                                    writes: if progress.source_receipts.height >= source.height {
                                        outcomes.push(
                                            WriteModel::Block {
                                                key: height_key(source.height),
                                                value: None,
                                            },
                                        )
                                    } else {
                                        outcomes
                                    },
                                    progress: Some(Progress { source, ..progress }),
                                },
                            ),
                            (),
                        ),
                    )
                },
            }
        }
    }

    // Recovery.

    /// The index entries that a recovery sweep reads: up to the source cursor.
    pub open spec fn recovery_keys(self) -> Seq<Seq<u8>> {
        table::in_range(
            self.store.recovery,
            Seq::empty(),
            (OccurrenceId { source_height: self.progress.source.height, source_index: u32::MAX }).key_bytes(),
            SWEEP as nat,
        )
    }

    /// The lowest source height that recovery still covers.
    pub open spec fn recovery_floor(self) -> u64 {
        state::elapsed(self.progress.source.height, RECOVERY_BLOCKS)
    }

    /// What is wrong with an index entry, if anything is.
    pub open spec fn recovery_error(self, keys: Seq<Seq<u8>>) -> spec_fn(int) -> Option<EvidenceError> {
        |i: int|
            match state::decoded(keys[i]) {
                None => Some(EvidenceError::InvalidRecoveryIndex),
                Some(id) => if self.occurrence(id) is None {
                    Some(EvidenceError::MissingRecoveryOccurrence)
                } else {
                    None
                },
            }
    }

    /// The entry left the window or has nothing to recover, and no round of it is open.
    pub open spec fn recovery_stale(self, key: Seq<u8>) -> bool {
        let id = state::decoded(key).unwrap();
        let record = self.store.records[id.key_bytes()];
        !record.in_flight && (id.source_height < self.recovery_floor() || !self.recoverable(record))
    }

    /// A state-dependent rejection waits until the target's finality has moved past the head at
    /// which it was made.
    pub open spec fn awaiting_head(self, record: OccurrenceModel) -> bool {
        &&& record.rounds == record.completed_round
        &&& record.attempts.len() > 0
        &&& record.attempts.last().disposition == Disposition::Rejected
        &&& self.progress.target.height <= record.target_at_dispatch.height
    }

    /// The entry names an occurrence that the next recovery round takes up.
    pub open spec fn recovery_due(self, key: Seq<u8>) -> bool {
        let id = state::decoded(key).unwrap();
        let record = self.store.records[id.key_bytes()];
        record.in_flight || (!self.recovery_stale(key) && !self.awaiting_head(record))
    }

    /// What a recovery sweep does.
    pub open spec fn recover(self) -> Outcome<Seq<OccurrenceId>> {
        let keys = self.recovery_keys();
        let removed = fold::gathered(
            keys.len(),
            |i: int|
                if self.recovery_stale(keys[i]) {
                    seq![WriteModel::Recovery { key: keys[i], present: false }]
                } else {
                    Seq::empty()
                },
        );
        let due = fold::gathered(
            keys.len(),
            |i: int|
                if self.recovery_due(keys[i]) {
                    seq![state::decoded(keys[i]).unwrap()]
                } else {
                    Seq::empty()
                },
        );
        if let Some(error) = fold::first_error(keys.len(), self.recovery_error(keys)) {
            Err(error)
        } else if removed.len() == 0 {
            Ok((None, due))
        } else {
            Ok((Some(CommitModel { writes: removed, progress: None }), due))
        }
    }

    // Observation.

    /// The record after the source receipt at its position was observed.
    pub open spec fn with_source_receipt(
        record: OccurrenceModel,
        receipt: ReceiptSummary,
    ) -> OccurrenceModel {
        OccurrenceModel { source_receipt: Some(receipt), ..record }
    }

    /// Every occurrence of a block up to the first without a record has a receipt at its position.
    pub open spec fn receipts_cover(self, block: SourceBlockModel, receipts: Seq<ReceiptSummary>) -> bool {
        forall|i: int|
            0 <= i < block.occurrences.len() && (forall|j: int|
                0 <= j <= i ==> self.occurrence(#[trigger] block.occurrences[j]) is Some)
                ==> (#[trigger] block.occurrences[i]).source_index < receipts.len()
    }

    /// What recording the receipts of a source block does.
    pub open spec fn observe_source(self, block: SourceBlockModel, receipts: Seq<ReceiptSummary>) -> Outcome<
        (),
    > {
        let ids = block.occurrences;
        let enriched = fold::gathered(
            ids.len(),
            |i: int|
                self.record_writes(
                    Self::with_source_receipt(
                        self.store.records[ids[i].key_bytes()],
                        receipts[ids[i].source_index as int],
                    ),
                ),
        );
        if block.cursor.height != self.progress.source_receipts.height + 1 {
            Err(EvidenceError::ReceiptsNotContiguous)
        } else if receipts.len() != block.hashes.len() {
            Err(EvidenceError::ReceiptCountMismatch)
        } else if exists|i: int| 0 <= i < ids.len() && self.occurrence(#[trigger] ids[i]) is None {
            Err(EvidenceError::MissingReceiptOccurrence)
        } else {
            Ok(
                (
                    Some(
                        CommitModel {
                            writes: if self.progress.source.height >= block.cursor.height {
                                enriched.push(
                                    WriteModel::Block {
                                        key: height_key(block.cursor.height),
                                        value: None,
                                    },
                                )
                            } else {
                                enriched
                            },
                            progress: Some(Progress { source_receipts: block.cursor, ..self.progress }),
                        },
                    ),
                    (),
                ),
            )
        }
    }

    /// The write that files an incident under its number.
    pub open spec fn incident_write(incident: IncidentModel, sequence: nat) -> WriteModel {
        WriteModel::Incident {
            key: incident_key(incident.observed_at_ms, sequence),
            value: IncidentModel { message: crate::store::bounded(incident.message), ..incident },
        }
    }

    /// The incident that ends a stall.
    pub open spec fn resumed(now: u64) -> IncidentModel {
        IncidentModel {
            observed_at_ms: now,
            stage: "target_finality"@,
            message: "finality resumed"@,
            history_failure: false,
        }
    }

    /// The incident that opens a stall.
    pub open spec fn stalled(now: u64) -> IncidentModel {
        IncidentModel {
            observed_at_ms: now,
            stage: "target_finality"@,
            message: "no finalized target progress within configured horizon"@,
            history_failure: false,
        }
    }

    /// What recording a finalized target block does.
    pub open spec fn observe(
        self,
        cursor: BlockCursor,
        timestamp_ms: u64,
        observations: Seq<TargetObservation>,
        system_txs: u64,
        failures: Seq<IncidentModel>,
        usage: DiskUsage,
        now: u64,
    ) -> Outcome<()> {
        let sequence = self.progress.incident_sequence as nat;
        let closing = if self.progress.stall_open {
            seq![Self::incident_write(Self::resumed(now), sequence + failures.len() + 1)]
        } else {
            Seq::empty()
        };
        let incidents = fold::gathered(
            failures.len(),
            |i: int| seq![Self::incident_write(failures[i], (sequence + i + 1) as nat)],
        ) + closing;
        if cursor.height != self.progress.target.height + 1 {
            Err(EvidenceError::TargetNotContiguous)
        } else if !self.limits.admits_spec(usage) {
            Err(EvidenceError::DiskLimit)
        } else if let Some(error) = self.reconcile_error(Map::empty(), observations) {
            Err(error)
        } else {
            Ok(
                (
                    Some(
                        CommitModel {
                            writes: self.reconcile_writes(Map::empty(), observations) + incidents,
                            progress: Some(
                                Progress {
                                    target: cursor,
                                    target_timestamp_ms: timestamp_ms,
                                    last_target_progress_ms: now,
                                    system_transactions: (self.progress.system_transactions + system_txs) as u64,
                                    system_failures: (self.progress.system_failures + failures.len()) as u64,
                                    incident_sequence: (sequence + incidents.len()) as u64,
                                    stall_open: false,
                                    ..self.progress
                                },
                            ),
                        },
                    ),
                    (),
                ),
            )
        }
    }

    /// What recording an incident does.
    pub open spec fn report(
        self,
        stage: Seq<char>,
        message: Seq<char>,
        history_failure: bool,
        now: u64,
    ) -> CommitModel {
        let sequence = (self.progress.incident_sequence + 1) as u64;
        CommitModel {
            writes: seq![
                Self::incident_write(
                    IncidentModel { observed_at_ms: now, stage, message, history_failure },
                    sequence as nat,
                ),
            ],
            progress: Some(
                if history_failure {
                    Progress {
                        history_failures: (self.progress.history_failures + 1) as u64,
                        incident_sequence: sequence,
                        ..self.progress
                    }
                } else {
                    Progress {
                        observation_failures: (self.progress.observation_failures + 1) as u64,
                        incident_sequence: sequence,
                        ..self.progress
                    }
                },
            ),
        }
    }

    /// The target has made no progress for the threshold, and no stall is open yet.
    pub open spec fn stalls(self, threshold_ms: u64, now: u64) -> bool {
        &&& threshold_ms > 0
        &&& !self.progress.stall_open
        &&& state::elapsed(now, self.progress.last_target_progress_ms) >= threshold_ms
    }

    /// What checking for a stall does.
    pub open spec fn check(self, threshold_ms: u64, now: u64) -> Option<CommitModel> {
        if self.stalls(threshold_ms, now) {
            let sequence = (self.progress.incident_sequence + 1) as u64;
            Some(
                CommitModel {
                    writes: seq![Self::incident_write(Self::stalled(now), sequence as nat)],
                    progress: Some(
                        Progress { stall_open: true, incident_sequence: sequence, ..self.progress },
                    ),
                },
            )
        } else {
            None
        }
    }

    /// The index keys of the incidents of a period, at most a thousand.
    pub open spec fn incident_keys(self, from_ms: u64, to_ms: u64) -> Seq<Seq<u8>> {
        table::in_range(
            self.store.incidents,
            bytes::be(from_ms as nat, 8),
            bytes::be(to_ms as nat, 8) + Seq::new(8, |i: int| 0xffu8),
            1000,
        )
    }

    // Retention.

    /// An entry of an index can be read and lies below a height floor.
    pub open spec fn old_enough(key: Seq<u8>, floor: u64) -> bool {
        state::decoded(key) matches Some(id) && id.source_height < floor
    }

    /// How many entries from the front of an index lie below a height floor, up to the first that
    /// does not or cannot be read.
    pub open spec fn below(keys: Seq<Seq<u8>>, floor: u64) -> nat
        decreases keys.len(),
    {
        if keys.len() > 0 && Self::old_enough(keys[0], floor) {
            1 + Self::below(keys.drop_first(), floor)
        } else {
            0
        }
    }

    /// The entry that stops a sweep of an index cannot be read.
    pub open spec fn unreadable(keys: Seq<Seq<u8>>, floor: u64) -> bool {
        let n = Self::below(keys, floor) as int;
        n < keys.len() && state::decoded(keys[n]) is None
    }

    /// The entries of the unmatched index that a sweep reads.
    pub open spec fn unmatched_keys(self) -> Seq<Seq<u8>> {
        table::under_prefix(self.store.unmatched_by_height, Seq::empty(), SWEEP as nat)
    }

    /// The entries of the clean index that a sweep reads.
    pub open spec fn clean_keys(self) -> Seq<Seq<u8>> {
        table::under_prefix(self.store.clean, Seq::empty(), SWEEP as nat)
    }

    /// What is wrong with an entry of the clean index, if anything is.
    pub open spec fn clean_error(self, keys: Seq<Seq<u8>>) -> spec_fn(int) -> Option<EvidenceError> {
        |i: int|
            match self.occurrence(state::decoded(keys[i]).unwrap()) {
                None => Some(EvidenceError::MissingCleanOccurrence),
                Some(record) => if record.clean_inclusion() {
                    None
                } else {
                    Some(EvidenceError::InconsistentCleanIndex)
                },
            }
    }

    /// The writes that remove an unmatched target occurrence by its place.
    pub open spec fn forget_unmatched(self, key: Seq<u8>) -> Seq<WriteModel> {
        seq![
            WriteModel::Unmatched { key: self.store.unmatched_by_height[key], value: None },
            WriteModel::UnmatchedByHeight { key, value: None },
        ]
    }

    /// The writes that remove a clean inclusion with its indexes.
    pub open spec fn forget_clean(self, key: Seq<u8>) -> Seq<WriteModel> {
        let id = state::decoded(key).unwrap();
        seq![
            WriteModel::Record { key, value: None },
            WriteModel::Hash {
                key: state::index_key(self.store.records[id.key_bytes()].transaction.hash, id),
                present: false,
            },
            WriteModel::Clean { key, present: false },
        ]
    }

    /// The lowest target height whose unmatched occurrences are kept.
    pub open spec fn unmatched_floor(self, retain_blocks: u64) -> u64 {
        state::elapsed(self.progress.target.height, retain_blocks)
    }

    /// The lowest source height whose clean inclusions are kept.
    pub open spec fn clean_floor(self, retain_blocks: u64) -> u64 {
        state::elapsed(self.progress.source.height, retain_blocks)
    }

    /// How many unmatched target occurrences retention removes.
    pub open spec fn retired_unmatched(self, retain_blocks: u64) -> nat {
        Self::below(self.unmatched_keys(), self.unmatched_floor(retain_blocks))
    }

    /// How many clean inclusions retention removes.
    pub open spec fn retired_clean(self, retain_blocks: u64) -> nat {
        Self::below(self.clean_keys(), self.clean_floor(retain_blocks))
    }

    /// What retention removes, before the disk is checked.
    pub open spec fn retire(self, retain_blocks: u64) -> Result<Option<CommitModel>, EvidenceError> {
        let unmatched = self.unmatched_keys();
        let unmatched_floor = self.unmatched_floor(retain_blocks);
        let m = self.retired_unmatched(retain_blocks);
        let clean = self.clean_keys();
        let clean_floor = self.clean_floor(retain_blocks);
        let n = self.retired_clean(retain_blocks);
        let removed = fold::gathered(m, |i: int| self.forget_unmatched(unmatched[i])) + fold::gathered(
            n,
            |i: int| self.forget_clean(clean[i]),
        );
        if Self::unreadable(unmatched, unmatched_floor) {
            Err(EvidenceError::InvalidUnmatchedIndex)
        } else if let Some(error) = fold::first_error(n, self.clean_error(clean)) {
            Err(error)
        } else if Self::unreadable(clean, clean_floor) {
            Err(EvidenceError::InvalidCleanIndex)
        } else if m + n == 0 {
            Ok(None)
        } else {
            Ok(
                Some(
                    CommitModel {
                        writes: removed,
                        progress: Some(
                            Progress {
                                archived_unmatched: (self.progress.archived_unmatched + m) as u64,
                                archived_included: (self.progress.archived_included + n) as u64,
                                ..self.progress
                            },
                        ),
                    },
                ),
            )
        }
    }

    // Opening.

    /// The progress of a store that was just made.
    pub open spec fn initial_progress(identity: ReplayIdentity, now: u64) -> Progress {
        let source = BlockCursor { height: identity.checkpoint_height, hash: identity.source_hash };
        let target = BlockCursor { height: identity.checkpoint_height, hash: identity.target_hash };
        Progress {
            checkpoint_height: identity.checkpoint_height,
            source,
            source_receipts: source,
            target,
            target_timestamp_ms: 0,
            source_transactions: 0,
            archived_included: 0,
            archived_unmatched: 0,
            system_transactions: 0,
            system_failures: 0,
            observation_failures: 0,
            history_failures: 0,
            last_dispatch_ms: 0,
            last_dispatch_target: target,
            last_target_progress_ms: now,
            stall_open: false,
            incident_sequence: 0,
        }
    }

    /// The state of a store that was opened for writing, or why it cannot be.
    pub open spec fn opened(
        store: StoreModel,
        identity: ReplayIdentity,
        max_rounds: u32,
        limits: StoreLimits,
        now: u64,
    ) -> Result<EvidenceModel, EvidenceError> {
        let progress = Progress {
            last_target_progress_ms: now,
            ..match store.progress {
                Some(progress) => progress,
                None => Self::initial_progress(identity, now),
            }
        };
        if identity.checkpoint_height == u64::MAX {
            Err(EvidenceError::CheckpointOverflow)
        } else if max_rounds == 0 {
            Err(EvidenceError::NoRounds)
        } else if store.meta matches Some(meta) && meta.schema != SCHEMA {
            Err(EvidenceError::SchemaMismatch)
        } else if store.meta matches Some(meta) && meta.identity != identity {
            Err(EvidenceError::IdentityMismatch)
        } else {
            Ok(
                (EvidenceModel {
                    store: StoreModel { meta: Some(StoreMeta { schema: SCHEMA, identity }), ..store },
                    max_rounds,
                    limits,
                    progress,
                    journal: Seq::empty(),
                }).settle(Some(CommitModel { writes: Seq::empty(), progress: Some(progress) })),
            )
        }
    }

    /// The state of a store that was opened for reading, or why it cannot be.
    pub open spec fn opened_for_reading(store: StoreModel) -> Result<EvidenceModel, EvidenceError> {
        match store.meta {
            Some(meta) => if meta.schema != SCHEMA {
                Err(EvidenceError::SchemaMismatch)
            } else {
                match store.progress {
                    None => Err(EvidenceError::MissingProgress),
                    Some(progress) => Ok(
                        EvidenceModel {
                            store,
                            max_rounds: u32::MAX,
                            limits: StoreLimits { max_bytes: u64::MAX, min_free_bytes: 0 },
                            progress,
                            journal: Seq::empty(),
                        },
                    ),
                }
            },
            None => Err(EvidenceError::SchemaMismatch),
        }
    }
}

} // verus!
