use alloy::consensus::transaction::RlpEcdsaEncodableTx;
use alloy::consensus::{SignableTransaction, TxLegacy};
use alloy::primitives::Signature;
use tempo_replay::evidence::{Completed, EvidenceError, EvidenceStore};
use tempo_replay::source::{Envelope, FinalizedBlock};
use tempo_replay::state::{
    Attempt, BlockCursor, Disposition, Finding, Incident, OccurrenceId, ReceiptSummary, ReplayIdentity, RpcFailure,
    TargetObservation, TxLocation,
};
use tempo_replay::store::{DiskUsage, Store, StoreMeta, Write, MAX_ERROR_CHARS};
use tempo_replay::words::{Address, B256};

fn identity() -> ReplayIdentity {
    ReplayIdentity {
        chain_id: 4217,
        checkpoint_height: 10,
        source_hash: B256::repeat_byte(1),
        target_hash: B256::repeat_byte(2),
    }
}

fn transaction(nonce: u64) -> Envelope {
    let signed = TxLegacy { chain_id: Some(4217), nonce, ..Default::default() }.into_signed(Signature::test_signature());
    let mut raw = Vec::new();
    signed.tx().eip2718_encode(signed.signature(), &mut raw);
    Envelope {
        raw,
        hash: B256::from_bytes(&signed.hash().0),
        transaction_type: 0,
        is_system_tx: false,
        is_valid_system_tx: false,
        has_sub_block_nonce_key_prefix: false,
        signer: Some(Address::repeat_byte(0x11)),
        to: None,
        nonce,
        nonce_key: None,
        is_expiring_nonce: false,
        gas_limit: 21_000,
        valid_before: None,
        valid_after: None,
    }
}

fn cursor(height: u64, byte: u8) -> BlockCursor {
    BlockCursor { height, hash: B256::repeat_byte(byte) }
}

fn block(height: u64, transactions: Vec<Envelope>) -> FinalizedBlock {
    FinalizedBlock { cursor: cursor(height, height as u8), timestamp_ms: height * 1000, transactions }
}

fn receipt(status: bool) -> ReceiptSummary {
    ReceiptSummary { status, gas_used: 21_000, logs_hash: B256 { hi: 0, lo: 0 } }
}

fn attempt(disposition: Disposition) -> Attempt {
    Attempt {
        queued_at_ms: 100,
        target_observed: identity().target_cursor(),
        started_at_ms: 200,
        completed_at_ms: 300,
        disposition,
        failure: None,
    }
}

fn rejection() -> Attempt {
    let mut attempt = attempt(Disposition::Rejected);
    attempt.failure = Some(RpcFailure {
        code: Some(-32003),
        message: "balance too low".into(),
        data: Some(r#"{"name":"InsufficientFeeTokenBalanceError","fee":"10","balance":"3"}"#.into()),
    });
    attempt
}

fn target(hash: B256, height: u64, index: u32, status: bool) -> TargetObservation {
    TargetObservation {
        transaction_hash: hash,
        location: TxLocation {
            block: cursor(height, height as u8 + 100),
            index,
            timestamp_ms: height * 1000,
        },
        receipt: receipt(status),
    }
}

fn room() -> DiskUsage {
    DiskUsage { used_bytes: 0, free_bytes: u64::MAX }
}

fn open(image: Store, max_rounds: u32) -> EvidenceStore {
    EvidenceStore::open(image, identity(), max_rounds, u64::MAX, 0).unwrap()
}

fn restart(store: EvidenceStore, max_rounds: u32) -> EvidenceStore {
    open(store.into_store(), max_rounds)
}

fn observe(store: &mut EvidenceStore, height: u64, transactions: Vec<TargetObservation>) {
    store
        .observe_target(cursor(height, height as u8 + 100), height * 1000, transactions, 0, Vec::new(), room())
        .unwrap();
}

fn done(id: OccurrenceId, attempts: Vec<Attempt>) -> Completed {
    Completed { id, attempts }
}

#[test]
fn checkpoint_identity_schema_and_reader_are_checked() {
    let store = open(Store::empty(), 3);
    assert_eq!(store.progress.source, identity().source_cursor());
    let reader = EvidenceStore::open_reader(store.into_store()).unwrap();
    assert_eq!(reader.progress.target, identity().target_cursor());
    assert_eq!(reader.identity(), identity());
    let mut other = identity();
    other.target_hash = B256::repeat_byte(99);
    assert_eq!(
        EvidenceStore::open(reader.into_store(), other, 3, u64::MAX, 0).err(),
        Some(EvidenceError::IdentityMismatch)
    );
    let mut legacy = Store::empty();
    legacy.stamp(StoreMeta { schema: 3, identity: identity() });
    assert_eq!(
        EvidenceStore::open(legacy, identity(), 3, u64::MAX, 0).err(),
        Some(EvidenceError::SchemaMismatch)
    );
}

#[test]
fn intent_survives_restart_and_cursor_requires_all_outcomes() {
    let source = block(11, vec![transaction(1), transaction(2)]);
    let mut store = open(Store::empty(), 3);
    let ids = store.prepare_block(source.clone(), room()).unwrap();
    let first = store.begin_round(ids.clone(), false).unwrap();
    assert_eq!(first[0].raw, source.transactions[0].raw);
    assert_eq!(store.progress.source.height, 10);

    let mut store = restart(store, 3);
    assert_eq!(store.prepare_block(source.clone(), room()).unwrap(), ids);
    let resumed = store.begin_round(ids.clone(), false).unwrap();
    assert!(resumed.iter().all(|q| q.uncertain_delivery));
    assert_eq!(store.occurrence(ids[0]).unwrap().interrupted_rounds, 1);
    assert!(store
        .complete_round(vec![done(ids[0], vec![attempt(Disposition::Accepted)])], Some(source.cursor))
        .is_err());
    assert_eq!(store.progress.source.height, 10);
    assert!(store.occurrence(ids[0]).unwrap().in_flight);
    store
        .complete_round(
            ids.iter().map(|id| done(*id, vec![attempt(Disposition::Accepted)])).collect(),
            Some(source.cursor),
        )
        .unwrap();
    assert_eq!(store.progress.source.height, 11);
    assert_eq!(store.progress.source_transactions, 2);
    let reader = EvidenceStore::open_reader(store.into_store()).unwrap();
    assert_eq!(reader.by_hash(source.transactions[0].hash).unwrap().len(), 1);
    let record = reader.occurrence(ids[0]).unwrap();
    assert_eq!(record.clone(), record);
}

#[test]
fn concurrent_observation_is_not_overwritten_by_submission_completion() {
    let mut store = open(Store::empty(), 3);
    let source = block(11, vec![transaction(1)]);
    let hash = source.transactions[0].hash;
    let ids = store.prepare_block(source.clone(), room()).unwrap();
    store.begin_round(ids.clone(), false).unwrap();
    let prepared = store.source_block(11).unwrap();
    store.source_receipts(prepared, vec![receipt(true)]).unwrap();
    observe(&mut store, 11, vec![target(hash, 11, 0, false)]);
    store
        .complete_round(vec![done(ids[0], vec![attempt(Disposition::Accepted)])], Some(source.cursor))
        .unwrap();
    let record = store.occurrence(ids[0]).unwrap();
    assert_eq!(record.finding(11, 400, 64, 120_000), Finding::ExecutionDrift);
    assert!(record.source_receipt.is_some() && record.target.is_some());
    assert!(store.source_block(11).is_none());
    assert!(!store.has_pending());
    let empty = block(12, vec![]);
    store.prepare_block(empty.clone(), room()).unwrap();
    store.complete_round(Vec::new(), Some(empty.cursor)).unwrap();
    store.prune(1, room()).unwrap();
    assert!(store.occurrence(ids[0]).is_some()); // Drift evidence is retained.
}

#[test]
fn repeated_hashes_match_distinct_target_occurrences_even_when_target_arrives_first() {
    let mut store = open(Store::empty(), 3);
    let tx = transaction(1);
    let hash = tx.hash;
    observe(&mut store, 11, vec![target(hash, 11, 0, true)]);
    let source = block(11, vec![tx.clone(), tx]);
    let ids = store.prepare_block(source.clone(), room()).unwrap();
    assert!(store.occurrence(ids[0]).unwrap().target.is_some());
    assert!(store.occurrence(ids[1]).unwrap().target.is_none());
    let queued = store.begin_round(ids.clone(), false).unwrap();
    assert_eq!(queued.len(), 1);
    assert_eq!(queued[0].id, ids[1]);
    store
        .complete_round(vec![done(ids[1], vec![attempt(Disposition::Accepted)])], Some(source.cursor))
        .unwrap();
    observe(&mut store, 12, vec![target(hash, 12, 0, true)]);
    let records = store.by_hash(hash).unwrap();
    assert_eq!(records.len(), 2);
    assert_ne!(
        records[0].1.target.as_ref().unwrap().location,
        records[1].1.target.as_ref().unwrap().location
    );
}

#[test]
fn repeated_hashes_in_one_target_batch_do_not_overwrite_or_reuse_a_match() {
    let mut store = open(Store::empty(), 3);
    let tx = transaction(1);
    let hash = tx.hash;
    let ids = store.prepare_block(block(11, vec![tx.clone(), tx]), room()).unwrap();
    observe(&mut store, 11, vec![target(hash, 11, 0, true), target(hash, 11, 1, false)]);
    assert_eq!(store.occurrence(ids[0]).unwrap().target.unwrap().location.index, 0);
    assert_eq!(store.occurrence(ids[1]).unwrap().target.unwrap().location.index, 1);
}

#[test]
fn state_recovery_waits_for_target_progress_and_keeps_the_original_rejection() {
    let mut store = open(Store::empty(), 2);
    let source = block(11, vec![transaction(1)]);
    let ids = store.prepare_block(source.clone(), room()).unwrap();
    store.begin_round(ids.clone(), false).unwrap();
    store.complete_round(vec![done(ids[0], vec![rejection()])], Some(source.cursor)).unwrap();
    assert!(store.recovery_candidates().unwrap().is_empty());
    // A block round never re-dispatches an occurrence with a committed outcome.
    assert!(store.begin_round(ids.clone(), false).unwrap().is_empty());
    observe(&mut store, 11, Vec::new());
    assert_eq!(store.recovery_candidates().unwrap(), ids);
    let queued = store.begin_round(ids.clone(), true).unwrap();
    assert!(!queued[0].uncertain_delivery); // A reported rejection is not ambiguous delivery.
    store.complete_round(vec![done(ids[0], vec![attempt(Disposition::Accepted)])], None).unwrap();
    let record = store.occurrence(ids[0]).unwrap();
    assert_eq!(record.attempts[0], rejection());
    assert_eq!(record.attempts.len(), 2);
    assert!(!record.raw.is_empty());
    assert!(store.recovery_candidates().unwrap().is_empty());
    let mut store = restart(store, 2);
    assert!(store.begin_round(ids.clone(), false).unwrap().is_empty());
    assert!(store.begin_round(ids, true).unwrap().is_empty()); // Budget spent.
}

#[test]
fn recovery_is_bounded_across_crashes_and_does_not_retry_expired_or_unknown_errors() {
    let mut store = open(Store::empty(), 1);
    let source = block(11, vec![transaction(1), transaction(2)]);
    let ids = store.prepare_block(source.clone(), room()).unwrap();
    store.begin_round(ids.clone(), false).unwrap();
    let mut store = restart(store, 1);
    assert!(store.begin_round(ids.clone(), false).unwrap().is_empty());
    store.complete_round(Vec::new(), Some(source.cursor)).unwrap();
    assert!(store.recovery_candidates().unwrap().is_empty());
    assert_eq!(
        store.occurrence(ids[0]).unwrap().finding(1000, u64::MAX, 1, 1),
        Finding::DeliveryAmbiguous
    );

    let mut store = restart(store, 3);
    let second = block(12, vec![transaction(3), transaction(4)]);
    let ids = store.prepare_block(second.clone(), room()).unwrap();
    store.begin_round(ids.clone(), false).unwrap();
    store
        .complete_round(
            vec![done(ids[0], vec![rejection()]), done(ids[1], vec![attempt(Disposition::Rejected)])],
            Some(second.cursor),
        )
        .unwrap();
    let mut expired = store.occurrence(ids[0]).unwrap();
    expired.transaction.valid_before = Some(12);
    let mut batch: Vec<Write> = Vec::new();
    store.put_record(&mut batch, &expired);
    store.commit(batch, None);
    observe(&mut store, 11, Vec::new());
    assert!(store.recovery_candidates().unwrap().is_empty());
}

#[test]
fn interrupted_recovery_does_not_relabel_an_unknown_delivery_as_the_previous_rejection() {
    let mut store = open(Store::empty(), 3);
    let source = block(11, vec![transaction(1)]);
    let ids = store.prepare_block(source.clone(), room()).unwrap();
    store.begin_round(ids.clone(), false).unwrap();
    store.complete_round(vec![done(ids[0], vec![rejection()])], Some(source.cursor)).unwrap();
    observe(&mut store, 11, Vec::new());
    assert_eq!(store.recovery_candidates().unwrap(), ids);
    store.begin_round(ids.clone(), true).unwrap();
    // The second RPC might have reached the node; no outcome was committed.
    let mut store = restart(store, 2);
    // The exhausted, interrupted intent is still handed to `begin_round` so it is closed.
    assert_eq!(store.recovery_candidates().unwrap(), ids);
    assert!(store.begin_round(ids.clone(), true).unwrap().is_empty());
    let record = store.occurrence(ids[0]).unwrap();
    assert!(!record.in_flight);
    assert_eq!(record.interrupted_rounds, 1);
    assert_eq!(record.attempts[0].disposition, Disposition::Rejected);
    assert_eq!(record.finding(1000, u64::MAX, 1, 1), Finding::DeliveryAmbiguous);
    assert!(store.recovery_candidates().unwrap().is_empty());
}

#[test]
fn partial_shutdown_outcomes_are_kept_and_settled_occurrences_are_not_redispatched() {
    let mut store = open(Store::empty(), 3);
    let source = block(11, vec![transaction(1), transaction(2)]);
    let ids = store.prepare_block(source.clone(), room()).unwrap();
    assert_eq!(store.begin_round(ids.clone(), false).unwrap().len(), 2);
    // Shutdown: the first lane finished, the second never issued its request.
    store.complete_round(vec![done(ids[0], vec![attempt(Disposition::Accepted)])], None).unwrap();
    assert_eq!(store.progress.source.height, 10);
    let mut store = restart(store, 3);
    assert_eq!(store.prepare_block(source.clone(), room()).unwrap(), ids);
    let resumed = store.begin_round(ids.clone(), false).unwrap();
    assert_eq!(resumed.len(), 1);
    assert_eq!(resumed[0].id, ids[1]);
    assert!(resumed[0].uncertain_delivery);
    let first = store.occurrence(ids[0]).unwrap();
    assert_eq!((first.rounds, first.interrupted_rounds), (1, 0));
    store
        .complete_round(vec![done(ids[1], vec![attempt(Disposition::Accepted)])], Some(source.cursor))
        .unwrap();
    assert_eq!(store.progress.source.height, 11);
    assert!(!store.occurrence(ids[0]).unwrap().clean_inclusion());
    assert_eq!(
        store.occurrence(ids[0]).unwrap().finding(11, 400, 64, 120_000),
        Finding::MissingWithinWindow
    );
}

#[test]
fn expiry_rejections_are_replay_lag_artifacts_not_admission_findings() {
    let mut store = open(Store::empty(), 3);
    let source = block(11, vec![transaction(1)]);
    let ids = store.prepare_block(source.clone(), room()).unwrap();
    store.begin_round(ids.clone(), false).unwrap();
    let mut expired = attempt(Disposition::Rejected);
    expired.failure = Some(RpcFailure {
        code: Some(-32003),
        message: "valid_before too soon".into(),
        data: Some(r#"{"name":"InvalidValidBeforeError","validBefore":10,"minAllowed":14}"#.into()),
    });
    store.complete_round(vec![done(ids[0], vec![expired])], Some(source.cursor)).unwrap();
    let record = store.occurrence(ids[0]).unwrap();
    assert_eq!(record.finding(11, 400, 64, 120_000), Finding::ExpiredBeforeDispatch);
    observe(&mut store, 11, Vec::new());
    assert!(store.recovery_candidates().unwrap().is_empty());
}

#[test]
fn clean_inclusions_are_pruned_with_their_indexes_but_failures_are_retained() {
    let mut store = open(Store::empty(), 3);
    let source = block(11, vec![transaction(1), transaction(2)]);
    let hash = source.transactions[0].hash;
    let ids = store.prepare_block(source.clone(), room()).unwrap();
    store.begin_round(ids.clone(), false).unwrap();
    store
        .complete_round(
            vec![done(ids[0], vec![attempt(Disposition::Accepted)]), done(ids[1], vec![rejection()])],
            Some(source.cursor),
        )
        .unwrap();
    let record = store.occurrence(ids[0]).unwrap();
    assert_eq!(record.finding(10, 400, 0, 200), Finding::MissingWithinWindow);
    assert_eq!(record.finding(10, 600, 0, 200), Finding::MissingAfterWindow);
    assert_eq!(record.finding(11, 301, 1, 0), Finding::MissingAfterWindow);
    observe(&mut store, 11, vec![target(hash, 11, 0, true)]);
    assert_eq!(store.occurrence(ids[0]).unwrap().finding(11, 600, 1, 1), Finding::AwaitingSourceReceipt);
    let prepared = store.source_block(11).unwrap();
    store.source_receipts(prepared, vec![receipt(true), receipt(true)]).unwrap();
    for height in 12..=13 {
        let empty = block(height, Vec::new());
        store.prepare_block(empty.clone(), room()).unwrap();
        store.complete_round(Vec::new(), Some(empty.cursor)).unwrap();
    }
    store.prune(1, room()).unwrap();
    assert_eq!(store.progress.archived_included, 1);
    assert!(store.occurrence(ids[0]).is_none());
    assert!(store.by_hash(hash).unwrap().is_empty());
    assert!(store.occurrence(ids[1]).is_some());
}

#[test]
fn unmatched_target_occurrences_are_pruned_by_target_age_only() {
    let mut store = open(Store::empty(), 3);
    let foreign = B256::repeat_byte(0xfe);
    observe(&mut store, 11, vec![target(foreign, 11, 0, true)]);
    assert_eq!(store.unmatched_count(), 1);
    store.prune(2, room()).unwrap();
    assert_eq!(store.unmatched_count(), 1);
    observe(&mut store, 12, Vec::new());
    observe(&mut store, 13, Vec::new());
    store.prune(2, room()).unwrap();
    assert_eq!(store.unmatched_count(), 1); // 13 - 2 = 11 is not yet older than the floor.
    observe(&mut store, 14, Vec::new());
    store.prune(2, room()).unwrap();
    assert_eq!(store.unmatched_count(), 0);
    assert_eq!(store.progress.archived_unmatched, 1);
    // A later source occurrence with that hash is simply unmatched, never mis-associated.
    let source = block(11, vec![transaction(1)]);
    let ids = store.prepare_block(source, room()).unwrap();
    assert!(store.occurrence(ids[0]).unwrap().target.is_none());
}

#[test]
fn downtime_before_start_is_not_a_target_stall() {
    let mut store = open(Store::empty(), 3);
    store.progress.last_target_progress_ms = 0;
    store.incident("test", "persist progress".into(), false);
    let mut store = restart(store, 3);
    store.check_stall(60_000);
    assert!(!store.progress.stall_open);
}

#[test]
fn stalls_and_observation_errors_are_not_execution_or_consensus_findings() {
    let mut store = open(Store::empty(), 3);
    store.progress.last_target_progress_ms = 0;
    store.check_stall(1);
    store.check_stall(1);
    assert_eq!(store.incidents(0, u64::MAX).len(), 1);
    assert!(store.progress.stall_open);
    let mut store = restart(store, 3);
    assert!(store.progress.stall_open);
    observe(&mut store, 11, Vec::new());
    assert!(!store.progress.stall_open);
    store.incident("source_receipts", "HTTP 503".into(), false);
    assert_eq!(store.progress.observation_failures, 1);
    assert_eq!(store.progress.history_failures, 0);
    store.incident("source_reader", "skipped authenticated block".into(), true);
    assert_eq!(store.progress.history_failures, 1);
}

#[test]
fn opening_refuses_an_overflowing_checkpoint_and_an_empty_budget() {
    let mut last = identity();
    last.checkpoint_height = u64::MAX;
    let refused = EvidenceStore::open_at(Store::empty(), last, 3, u64::MAX, 0, 5).err().unwrap();
    assert_eq!(refused, EvidenceError::CheckpointOverflow);
    assert_eq!(refused.message(), "checkpoint height overflows shadow epoch length");
    assert_eq!(
        EvidenceStore::open_at(Store::empty(), identity(), 0, u64::MAX, 0, 5).err(),
        Some(EvidenceError::NoRounds)
    );
    assert_eq!(EvidenceStore::open_reader(Store::empty()).err(), Some(EvidenceError::SchemaMismatch));
    let mut stamped = Store::empty();
    stamped.stamp(StoreMeta { schema: 4, identity: identity() });
    assert_eq!(EvidenceStore::open_reader(stamped).err(), Some(EvidenceError::MissingProgress));
}

#[test]
fn the_journal_rebuilds_the_store() {
    let mut store = open(Store::empty(), 3);
    let source = block(11, vec![transaction(1), transaction(2)]);
    let hash = source.transactions[1].hash;
    let ids = store.prepare_block(source.clone(), room()).unwrap();
    store.begin_round(ids.clone(), false).unwrap();
    observe(&mut store, 11, vec![target(hash, 11, 4, true)]);
    let commits = store.take_journal();
    assert_eq!(commits.len(), 4);
    assert!(store.take_journal().is_empty());
    let mut image = Store::empty();
    image.stamp(StoreMeta { schema: 4, identity: identity() });
    for commit in &commits {
        image.commit(commit);
    }
    let rebuilt = open(image, 3);
    for id in &ids {
        assert_eq!(rebuilt.occurrence(*id), store.occurrence(*id));
    }
    assert_eq!(rebuilt.occurrence(ids[1]).unwrap().target.unwrap().location.index, 4);
    assert_eq!(rebuilt.source_block(11), store.source_block(11));
    assert_eq!(rebuilt.progress.target, store.progress.target);
}

#[test]
fn preparation_checks_what_it_is_given() {
    let mut store = open(Store::empty(), 3);
    assert_eq!(
        store.prepare_block_at(block(12, vec![]), room(), 1).err(),
        Some(EvidenceError::SourceNotContiguous)
    );
    let mut unsigned = transaction(1);
    unsigned.signer = None;
    assert_eq!(
        store.prepare_block_at(block(11, vec![unsigned]), room(), 1).err(),
        Some(EvidenceError::UnknownSigner)
    );
    let source = block(11, vec![transaction(1)]);
    let ids = store.prepare_block_at(source.clone(), room(), 77).unwrap();
    let record = store.occurrence(ids[0]).unwrap();
    assert_eq!(record.queued_at_ms, 77);
    assert_eq!(record.transaction.encoded_length, source.transactions[0].raw.len() as u64);
    let mut changed = source.clone();
    changed.transactions[0].raw.push(0);
    assert_eq!(
        store.prepare_block_at(changed, room(), 1).err(),
        Some(EvidenceError::SourceOccurrenceChanged)
    );
    let mut later = source.clone();
    later.timestamp_ms += 1;
    assert_eq!(store.prepare_block_at(later, room(), 1).err(), Some(EvidenceError::PreparedBlockChanged));
    assert_eq!(store.progress.source_transactions, 1);
}

#[test]
fn system_and_subblock_transactions_are_not_recorded() {
    let mut store = open(Store::empty(), 3);
    let mut system = transaction(7);
    system.is_system_tx = true;
    system.signer = None;
    let mut subblock = transaction(8);
    subblock.has_sub_block_nonce_key_prefix = true;
    let source = block(11, vec![system, transaction(1), subblock]);
    let ids = store.prepare_block(source.clone(), room()).unwrap();
    assert_eq!(ids, vec![OccurrenceId { source_height: 11, source_index: 1 }]);
    assert_eq!(store.source_block(11).unwrap().hashes.len(), 3);
}

#[test]
fn a_full_disk_stops_preparation_and_observation_and_is_reported_after_pruning() {
    let mut store = EvidenceStore::open(Store::empty(), identity(), 3, 100, 50).unwrap();
    let full = DiskUsage { used_bytes: 101, free_bytes: 1000 };
    let tight = DiskUsage { used_bytes: 1, free_bytes: 49 };
    assert_eq!(store.prepare_block(block(11, vec![]), full).err(), Some(EvidenceError::DiskLimit));
    assert_eq!(
        store.observe_target(cursor(11, 111), 11_000, vec![], 0, vec![], tight).err(),
        Some(EvidenceError::DiskLimit)
    );
    assert_eq!(store.prune(0, full), Ok(()));
    assert_eq!(store.prune(5, full), Err(EvidenceError::DiskLimit));
    assert_eq!(store.prune(5, DiskUsage { used_bytes: 100, free_bytes: 50 }), Ok(()));
}

#[test]
fn completions_are_checked() {
    let mut store = open(Store::empty(), 3);
    let source = block(11, vec![transaction(1)]);
    let ids = store.prepare_block(source.clone(), room()).unwrap();
    let accepted = || vec![attempt(Disposition::Accepted)];
    let unknown = OccurrenceId { source_height: 11, source_index: 9 };
    assert_eq!(store.begin_round(vec![unknown], false).err(), Some(EvidenceError::MissingDispatchIntent));
    assert_eq!(
        store.complete_round(vec![done(unknown, accepted())], None),
        Err(EvidenceError::MissingDispatchRecord)
    );
    assert_eq!(
        store.complete_round(vec![done(ids[0], accepted())], None),
        Err(EvidenceError::CompletedWithoutIntent)
    );
    store.begin_round(ids.clone(), false).unwrap();
    assert_eq!(
        store.complete_round(vec![done(ids[0], vec![])], None),
        Err(EvidenceError::CompletedWithoutEvidence)
    );
    let many = (0..41).map(|_| attempt(Disposition::Ambiguous)).collect();
    assert_eq!(store.complete_round(vec![done(ids[0], many)], None), Err(EvidenceError::AttemptBound));
    assert_eq!(
        store.complete_round(vec![done(ids[0], accepted()), done(ids[0], accepted())], None),
        Err(EvidenceError::DuplicateCompletion)
    );
    assert_eq!(
        store.complete_round(vec![], Some(cursor(12, 12))),
        Err(EvidenceError::SourceAdvanceNotContiguous)
    );
    assert_eq!(
        store.complete_round(vec![], Some(cursor(11, 99))),
        Err(EvidenceError::CompletionHashMismatch)
    );
    assert_eq!(
        store.complete_round(vec![], Some(source.cursor)),
        Err(EvidenceError::UnfinishedSubmissions)
    );
    let late = attempt(Disposition::Accepted);
    store.complete_round(vec![done(ids[0], vec![late])], Some(source.cursor)).unwrap();
    assert_eq!(store.progress.last_dispatch_ms, 300);
    assert_eq!(store.complete_round(vec![], Some(cursor(12, 12))), Err(EvidenceError::NoDurableIntent));
}

#[test]
fn receipts_and_observations_are_contiguous_and_distinct() {
    let mut store = open(Store::empty(), 3);
    let source = block(11, vec![transaction(1)]);
    store.prepare_block(source.clone(), room()).unwrap();
    let prepared = store.source_block(11).unwrap();
    let mut ahead = prepared.clone();
    ahead.cursor.height = 12;
    assert_eq!(
        store.source_receipts(ahead, vec![receipt(true)]),
        Err(EvidenceError::ReceiptsNotContiguous)
    );
    assert_eq!(
        store.source_receipts(prepared.clone(), vec![]),
        Err(EvidenceError::ReceiptCountMismatch)
    );
    let mut foreign = prepared.clone();
    foreign.occurrences[0].source_index = 3;
    assert_eq!(
        store.source_receipts(foreign, vec![receipt(true)]),
        Err(EvidenceError::MissingReceiptOccurrence)
    );
    store.source_receipts(prepared, vec![receipt(true)]).unwrap();
    assert_eq!(store.progress.source_receipts, source.cursor);
    assert_eq!(
        store.observe_target(cursor(12, 112), 12_000, vec![], 0, vec![], room()),
        Err(EvidenceError::TargetNotContiguous)
    );
    let twice = target(B256::repeat_byte(5), 11, 0, true);
    assert_eq!(
        store.observe_target(cursor(11, 111), 11_000, vec![twice, twice], 0, vec![], room()),
        Err(EvidenceError::DuplicateTargetLocation)
    );
    assert_eq!(store.unmatched_count(), 0);
}

#[test]
fn more_than_a_thousand_occurrences_of_a_hash_are_not_looked_up() {
    let mut store = open(Store::empty(), 3);
    let tx = transaction(1);
    store.prepare_block(block(11, vec![tx.clone(); 1000]), room()).unwrap();
    assert_eq!(store.by_hash(tx.hash).unwrap().len(), 1000);
    store.complete_round(vec![], None).unwrap();
    let mut batch: Vec<Write> = Vec::new();
    let key = tempo_replay::state::index_key_vec(tx.hash, OccurrenceId { source_height: 12, source_index: 0 });
    batch.push(Write::Hash { key, present: true });
    store.commit(batch, None);
    assert_eq!(store.by_hash(tx.hash).err(), Some(EvidenceError::TooManyOccurrences));
}

#[test]
fn damaged_indexes_are_reported() {
    let short = vec![0u8, 0, 0];
    let id = OccurrenceId { source_height: 2, source_index: 0 };
    let mut store = open(Store::empty(), 3);
    store.commit(vec![Write::Recovery { key: short.clone(), present: true }], None);
    assert_eq!(store.recovery_candidates().err(), Some(EvidenceError::InvalidRecoveryIndex));
    let mut store = open(Store::empty(), 3);
    store.commit(vec![Write::Recovery { key: id.key_vec(), present: true }], None);
    assert_eq!(store.recovery_candidates().err(), Some(EvidenceError::MissingRecoveryOccurrence));
    let mut store = open(Store::empty(), 3);
    store.commit(vec![Write::Clean { key: short.clone(), present: true }], None);
    assert_eq!(store.prune(1, room()), Err(EvidenceError::InvalidCleanIndex));
    let mut store = open(Store::empty(), 3);
    store.commit(vec![Write::Clean { key: id.key_vec(), present: true }], None);
    assert_eq!(store.prune(1, room()), Err(EvidenceError::MissingCleanOccurrence));
    let mut store = open(Store::empty(), 3);
    store.commit(vec![Write::UnmatchedByHeight { key: short, value: Some(vec![]) }], None);
    assert_eq!(store.prune(1, room()), Err(EvidenceError::InvalidUnmatchedIndex));
    let mut store = open(Store::empty(), 3);
    let hash = B256::repeat_byte(9);
    let mut key = hash.to_vec();
    store.commit(vec![Write::Hash { key: key.clone(), present: true }], None);
    assert_eq!(store.by_hash(hash).err(), Some(EvidenceError::InvalidHashIndex));
    store.commit(vec![Write::Hash { key: key.clone(), present: false }], None);
    key.extend(id.key_vec());
    store.commit(vec![Write::Hash { key, present: true }], None);
    assert_eq!(store.by_hash(hash).err(), Some(EvidenceError::MissingIndexedOccurrence));
    let mut store = open(Store::empty(), 3);
    let ids = store.prepare_block(block(11, vec![transaction(1)]), room()).unwrap();
    store.progress.source.height = 20;
    store.commit(vec![Write::Clean { key: ids[0].key_vec(), present: true }], None);
    assert_eq!(store.prune(1, room()), Err(EvidenceError::InconsistentCleanIndex));
}

#[test]
fn recovery_forgets_what_left_the_window_but_closes_open_submissions() {
    let mut store = open(Store::empty(), 3);
    let source = block(11, vec![transaction(1), transaction(2)]);
    let ids = store.prepare_block(source.clone(), room()).unwrap();
    store.begin_round(ids.clone(), false).unwrap();
    store
        .complete_round(
            vec![done(ids[0], vec![attempt(Disposition::Ambiguous)]), done(ids[1], vec![attempt(Disposition::Ambiguous)])],
            Some(source.cursor),
        )
        .unwrap();
    assert_eq!(store.recovery_candidates().unwrap(), ids);
    store.begin_round(vec![ids[0]], true).unwrap();
    store.progress.source.height = 11 + 65;
    assert_eq!(store.recovery_candidates().unwrap(), vec![ids[0]]);
    store.progress.source.height = 11;
    assert_eq!(store.recovery_candidates().unwrap(), vec![ids[0]]);
}

#[test]
fn a_recovery_round_hands_out_what_is_due() {
    let mut store = open(Store::empty(), 2);
    let source = block(11, vec![transaction(1)]);
    let ids = store.prepare_block(source.clone(), room()).unwrap();
    store.begin_round(ids.clone(), false).unwrap();
    store
        .complete_round(vec![done(ids[0], vec![attempt(Disposition::Ambiguous)])], Some(source.cursor))
        .unwrap();
    let queued = store.begin_recovery_at(900).unwrap();
    assert_eq!(queued.len(), 1);
    assert!(queued[0].uncertain_delivery);
    assert_eq!(queued[0].queued_at_ms, 900);
    store.complete_round(vec![done(ids[0], vec![attempt(Disposition::Accepted)])], None).unwrap();
    assert!(store.begin_recovery_at(901).unwrap().is_empty());
}

#[test]
fn incidents_are_numbered_bounded_and_listed_by_time() {
    let mut store = open(Store::empty(), 3);
    store.incident_at("first", "x".repeat(MAX_ERROR_CHARS + 5), false, 500);
    store.incident_at("second", "short".into(), true, 500);
    store.incident_at("third", "later".into(), false, 700);
    let found = store.incidents(500, 500);
    assert_eq!(found.len(), 2);
    assert_eq!((found[0].stage.as_str(), found[1].stage.as_str()), ("first", "second"));
    assert_eq!(found[0].message.len(), MAX_ERROR_CHARS);
    assert_eq!(store.incidents(0, 499), Vec::<Incident>::new());
    assert_eq!(store.incidents(501, 700).len(), 1);
    assert_eq!((store.progress.observation_failures, store.progress.history_failures), (2, 1));
}

#[test]
fn observing_ends_a_stall_with_one_incident_and_counts_system_failures() {
    let mut store = open(Store::empty(), 3);
    store.progress.last_target_progress_ms = 1_000;
    store.check_stall_at(0, 5_000);
    assert!(!store.progress.stall_open);
    store.check_stall_at(4_001, 5_000);
    assert!(!store.progress.stall_open);
    store.check_stall_at(4_000, 5_000);
    assert!(store.progress.stall_open);
    let failure = Incident {
        observed_at_ms: 6_000,
        stage: "system_execution".into(),
        message: "bad".into(),
        history_failure: false,
    };
    store
        .observe_target_at(cursor(11, 111), 11_000, vec![], 3, vec![failure], room(), 6_000)
        .unwrap();
    assert!(!store.progress.stall_open);
    assert_eq!(store.progress.system_transactions, 3);
    assert_eq!(store.progress.system_failures, 1);
    assert_eq!(store.progress.target_timestamp_ms, 11_000);
    let found = store.incidents(0, u64::MAX);
    let said: Vec<&str> = found.iter().map(|i| i.message.as_str()).collect();
    assert_eq!(said, vec!["no finalized target progress within configured horizon", "bad", "finality resumed"]);
}

#[test]
fn expired_windows_stop_further_rounds_but_not_the_first() {
    let mut store = open(Store::empty(), 3);
    let mut tx = transaction(1);
    tx.valid_before = Some(14);
    let source = block(11, vec![tx]);
    let ids = store.prepare_block(source.clone(), room()).unwrap();
    observe(&mut store, 11, Vec::new());
    // 11 s on the target's clock and three of allowance reach 14.
    assert_eq!(store.begin_round(ids.clone(), false).unwrap().len(), 1);
    store
        .complete_round(vec![done(ids[0], vec![attempt(Disposition::Ambiguous)])], Some(source.cursor))
        .unwrap();
    assert!(store.recovery_candidates().unwrap().is_empty());
    assert!(store.begin_round(ids, true).unwrap().is_empty());
}

#[test]
fn a_tick_checks_prunes_and_reports() {
    let mut store = open(Store::empty(), 3);
    store.progress.last_target_progress_ms = 0;
    let (progress, pending) = store.tick_at(10, 5, room(), 100).unwrap();
    assert!(progress.stall_open);
    assert!(!pending);
    store.prepare_block(block(11, vec![transaction(1)]), room()).unwrap();
    assert!(store.tick_at(10, 5, room(), 200).unwrap().1);
}

#[test]
fn rounds_are_begun_while_interruptions_can_be_counted() {
    let mut store = open(Store::empty(), 3);
    let ids = store.prepare_block(block(11, vec![transaction(1)]), room()).unwrap();
    assert!(store.may_begin(&ids));
    store.begin_round(ids.clone(), false).unwrap();
    assert!(store.may_begin(&ids));
    let mut record = store.occurrence(ids[0]).unwrap();
    record.interrupted_rounds = u32::MAX;
    store.commit(vec![Write::Record { key: ids[0].key_vec(), value: Some(record) }], None);
    assert!(!store.may_begin(&ids));
    assert!(store.may_begin(&vec![OccurrenceId { source_height: 99, source_index: 0 }]));
}

#[test]
fn the_largest_budget_stays_within_the_bound_on_attempts() {
    let mut store = open(Store::empty(), 8);
    let source = block(11, vec![transaction(1)]);
    let ids = store.prepare_block(source.clone(), room()).unwrap();
    for round in 0..8 {
        let queued = store.begin_round(ids.clone(), round > 0).unwrap();
        assert_eq!(queued.len(), 1);
        let attempts = (0..5).map(|_| attempt(Disposition::Ambiguous)).collect();
        let cursor = if round == 0 { Some(source.cursor) } else { None };
        store.complete_round(vec![done(ids[0], attempts)], cursor).unwrap();
    }
    assert_eq!(store.occurrence(ids[0]).unwrap().attempts.len(), 40);
    assert!(store.recovery_candidates().unwrap().is_empty());
    assert!(store.begin_round(ids, true).unwrap().is_empty());
}

#[test]
fn an_open_recovery_round_of_an_occurrence_seen_on_the_target_is_closed() {
    let mut store = open(Store::empty(), 3);
    let source = block(11, vec![transaction(1)]);
    let ids = store.prepare_block(source.clone(), room()).unwrap();
    store.begin_round(ids.clone(), false).unwrap();
    store
        .complete_round(vec![done(ids[0], vec![attempt(Disposition::Ambiguous)])], Some(source.cursor))
        .unwrap();
    assert_eq!(store.recovery_candidates().unwrap(), ids);
    assert_eq!(store.begin_round(ids.clone(), true).unwrap().len(), 1);
    let mut store = restart(store, 3);
    observe(&mut store, 11, vec![target(source.transactions[0].hash, 11, 0, true)]);
    let open_round = store.occurrence(ids[0]).unwrap();
    assert!(open_round.target.is_some() && open_round.in_flight);
    assert_eq!(store.recovery_candidates().unwrap(), ids);
    assert!(store.begin_round(ids.clone(), true).unwrap().is_empty());
    let closed = store.occurrence(ids[0]).unwrap();
    assert!(!closed.in_flight);
    assert_eq!((closed.rounds, closed.interrupted_rounds), (2, 1));
    assert_eq!(closed.target, open_round.target);
    assert!(store.recovery_candidates().unwrap().is_empty());
}

#[test]
fn preparing_again_after_a_begun_and_a_partly_completed_round_changes_no_record() {
    let mut store = open(Store::empty(), 3);
    let source = block(11, vec![transaction(1), transaction(2)]);
    let ids = store.prepare_block(source.clone(), room()).unwrap();
    store.begin_round(ids.clone(), false).unwrap();
    for complete in [false, true] {
        if complete {
            store.complete_round(vec![done(ids[0], vec![rejection()])], None).unwrap();
        }
        store = restart(store, 3);
        let before: Vec<_> = ids.iter().map(|id| store.occurrence(*id).unwrap()).collect();
        let counted = store.progress.source_transactions;
        assert_eq!(store.prepare_block(source.clone(), room()).unwrap(), ids);
        let after: Vec<_> = ids.iter().map(|id| store.occurrence(*id).unwrap()).collect();
        assert_eq!(after, before);
        assert_eq!(store.progress.source_transactions, counted);
        assert_eq!(store.progress.source.height, 10);
        assert_eq!(after[0].in_flight, !complete);
        assert_eq!(after[0].completed_round, u32::from(complete));
        assert!(after[1].in_flight);
    }
}

#[test]
fn dispatches_over_restarts_are_counted_and_stay_within_the_budget() {
    let mut store = open(Store::empty(), 3);
    let source = block(11, vec![transaction(1), transaction(2)]);
    let ids = store.prepare_block(source.clone(), room()).unwrap();
    let mut handed_out = [0u32; 2];
    for round in 0..6 {
        for dispatch in store.begin_round(ids.clone(), round % 2 == 1).unwrap() {
            handed_out[dispatch.id.source_index as usize] += 1;
        }
        if round == 0 {
            store.complete_round(vec![done(ids[0], vec![attempt(Disposition::Ambiguous)])], None).unwrap();
        }
        store = restart(store, 3);
        for id in &ids {
            let record = store.occurrence(*id).unwrap();
            assert_eq!(record.rounds, handed_out[id.source_index as usize]);
            assert!(record.rounds <= 3 && record.completed_round <= record.rounds);
        }
    }
    assert_eq!(handed_out, [3, 3]);
}

#[test]
fn a_stall_is_one_incident_and_no_failure() {
    let mut store = open(Store::empty(), 3);
    store.progress.last_target_progress_ms = 1_000;
    store.check_stall_at(4_000, 5_000);
    store.check_stall_at(1, 9_000);
    store.check_stall_at(0, 9_000);
    assert!(store.progress.stall_open);
    assert_eq!(
        store.incidents(0, u64::MAX),
        vec![Incident {
            observed_at_ms: 5_000,
            stage: "target_finality".into(),
            message: "no finalized target progress within configured horizon".into(),
            history_failure: false,
        }]
    );
    assert_eq!(store.progress.incident_sequence, 1);
    assert_eq!((store.progress.observation_failures, store.progress.history_failures), (0, 0));
    assert_eq!(store.progress.system_failures, 0);
}
