//! What both chains show, told by what comes in and what goes on record.

use crate::bytes;
use crate::evidence::incident_laws;
use crate::evidence::intake_laws;
use crate::evidence::matching;
use crate::evidence::model;
use crate::evidence::model::EvidenceModel;
use crate::evidence::preparation_laws;
use crate::evidence::{EvidenceError, Progress, SourceBlockModel};
use crate::fold;
use crate::state::{BlockCursor, IncidentModel, OccurrenceModel, ReceiptSummary, TargetObservation};
use crate::store;
use crate::store::{DiskUsage, StoreModel, WriteModel};
use crate::table;
use crate::words::B256;
use vstd::prelude::*;

verus! {

// Target blocks.

/// A target block moves the target cursor to it, takes its time for the target's clock, adds its system
/// transactions and their failures to the counts, ends a stall, and numbers one incident for each
/// failure and one more for a stall that it ends. Nothing else of the progress changes.
pub proof fn law_a_target_block_moves_the_target_cursor(
    m: EvidenceModel,
    cursor: BlockCursor,
    timestamp_ms: u64,
    observations: Seq<TargetObservation>,
    system_txs: u64,
    failures: Seq<IncidentModel>,
    usage: DiskUsage,
    now: u64,
)
    requires
        m.observe(cursor, timestamp_ms, observations, system_txs, failures, usage, now) is Ok,
        m.progress.system_transactions + system_txs <= u64::MAX,
        m.progress.system_failures + failures.len() <= u64::MAX,
        m.progress.incident_sequence + failures.len() + 1 <= u64::MAX,
    ensures
        cursor.height == m.progress.target.height + 1,
        usage.used_bytes <= m.limits.max_bytes,
        usage.free_bytes >= m.limits.min_free_bytes,
        ({
            let after = m.settle(
                m.observe(cursor, timestamp_ms, observations, system_txs, failures, usage, now)->Ok_0.0,
            ).progress;
            &&& after.target == cursor
            &&& after.target_timestamp_ms == timestamp_ms
            &&& after.last_target_progress_ms == now
            &&& !after.stall_open
            &&& after.system_transactions == m.progress.system_transactions + system_txs
            &&& after.system_failures == m.progress.system_failures + failures.len()
            &&& after.incident_sequence == m.progress.incident_sequence + failures.len() + (if m.progress.stall_open {
                1int
            } else {
                0int
            })
            &&& after == (Progress {
                target: after.target,
                target_timestamp_ms: after.target_timestamp_ms,
                last_target_progress_ms: after.last_target_progress_ms,
                stall_open: after.stall_open,
                system_transactions: after.system_transactions,
                system_failures: after.system_failures,
                incident_sequence: after.incident_sequence,
                ..m.progress
            })
        }),
{
    let first = m.progress.incident_sequence as nat;
    let part = |i: int| seq![EvidenceModel::incident_write(failures[i], (first + i + 1) as nat)];
    incident_laws::lemma_one_each(failures.len(), part);
}

/// Two target occurrences are one if and only if they are of one hash at one place, and no block that
/// shows one twice is taken.
pub proof fn law_a_target_occurrence_is_its_hash_and_place(
    m: EvidenceModel,
    cursor: BlockCursor,
    timestamp_ms: u64,
    observations: Seq<TargetObservation>,
    system_txs: u64,
    failures: Seq<IncidentModel>,
    usage: DiskUsage,
    now: u64,
    i: int,
    j: int,
)
    requires
        0 <= i < j < observations.len(),
        observations[i].transaction_hash == observations[j].transaction_hash,
        observations[i].location.block.height == observations[j].location.block.height,
        observations[i].location.index == observations[j].location.index,
    ensures
        m.observe(cursor, timestamp_ms, observations, system_txs, failures, usage, now) is Err,
{
    let repeated = EvidenceModel::repeated_target(observations);
    assert(model::target_key(observations[i]) == model::target_key(observations[j]));
    if fold::first_error(observations.len(), repeated) is None {
        fold::lemma_all_pass(observations.len(), repeated, j);
    }
}

/// The key of a target occurrence tells its hash and its place.
pub proof fn law_target_keys_are_exact(s: TargetObservation, t: TargetObservation)
    ensures
        model::target_key(s) == model::target_key(t) <==> s.transaction_hash == t.transaction_hash && s.location.block.height
            == t.location.block.height && s.location.index == t.location.index,
{
    crate::state::law_index_keys_are_exact(
        s.transaction_hash,
        t.transaction_hash,
        model::location(s),
        model::location(t),
    );
}

/// A target block that follows the cursor, shows nothing twice and finds room is taken, but for a hash
/// with too many occurrences to be looked up.
pub proof fn law_a_target_block_that_follows_is_taken(
    m: EvidenceModel,
    cursor: BlockCursor,
    timestamp_ms: u64,
    observations: Seq<TargetObservation>,
    system_txs: u64,
    failures: Seq<IncidentModel>,
    usage: DiskUsage,
    now: u64,
)
    requires
        cursor.height == m.progress.target.height + 1,
        usage.used_bytes <= m.limits.max_bytes,
        usage.free_bytes >= m.limits.min_free_bytes,
        forall|i: int, j: int| 0 <= i < j < observations.len() ==> (#[trigger] observations[i]).transaction_hash
            != (#[trigger] observations[j]).transaction_hash || observations[i].location.block.height
            != observations[j].location.block.height || observations[i].location.index != observations[j].location.index,
        forall|i: int| 0 <= i < observations.len() ==> m.by_hash_error((#[trigger] observations[i]).transaction_hash) is None,
    ensures
        m.observe(cursor, timestamp_ms, observations, system_txs, failures, usage, now) is Ok,
{
    let given = Map::<Seq<u8>, OccurrenceModel>::empty();
    let repeated = EvidenceModel::repeated_target(observations);
    assert forall|j: int| 0 <= j < observations.len() implies (#[trigger] repeated(j)) is None by {
        if exists|i: int| 0 <= i < j && model::target_key(#[trigger] observations[i]) == model::target_key(observations[j]) {
            let i = choose|i: int| 0 <= i < j && model::target_key(#[trigger] observations[i]) == model::target_key(observations[j]);
            law_target_keys_are_exact(observations[i], observations[j]);
        }
    }
    fold::lemma_no_error(observations.len(), repeated);
    let hashes = EvidenceModel::hash_list(given, observations);
    let errors = |i: int| m.by_hash_error(hashes[i]);
    matching::lemma_hash_list(given, observations);
    assert forall|i: int| 0 <= i < hashes.len() implies (#[trigger] errors(i)) is None by {
        let map = EvidenceModel::hashes_of(given, observations);
        let key = table::listed(map)[i];
        assert(table::listed(map).contains(key));
        assert(map.contains_key(key));
        let hash = choose|hash: B256| #[trigger] hash.bytes() == key && EvidenceModel::concerns(given, observations, hash);
        assert(hash.bytes() == key);
        crate::words::lemma_hash_injective(hashes[i], hash);
        let k = choose|k: int| 0 <= k < observations.len() && (#[trigger] observations[k]).transaction_hash == hash;
        assert(observations[k].transaction_hash == hash);
    }
    fold::lemma_no_error(hashes.len(), errors);
}

/// A refusal of a target block says what is wrong with it: it does not follow the cursor, there is no
/// room, two of its occurrences are one, or a hash cannot be looked up.
pub proof fn law_a_refused_target_block_is_called_by_its_fault(
    m: EvidenceModel,
    cursor: BlockCursor,
    timestamp_ms: u64,
    observations: Seq<TargetObservation>,
    system_txs: u64,
    failures: Seq<IncidentModel>,
    usage: DiskUsage,
    now: u64,
)
    requires
        m.observe(cursor, timestamp_ms, observations, system_txs, failures, usage, now) is Err,
    ensures
        ({
            let error = m.observe(cursor, timestamp_ms, observations, system_txs, failures, usage, now)->Err_0;
            let full = usage.used_bytes > m.limits.max_bytes || usage.free_bytes < m.limits.min_free_bytes;
            &&& error == EvidenceError::TargetNotContiguous <==> cursor.height != m.progress.target.height + 1
            &&& error == EvidenceError::DiskLimit <==> cursor.height == m.progress.target.height + 1 && full
            &&& cursor.height == m.progress.target.height + 1 && !full ==> {
                ||| error == EvidenceError::DuplicateTargetLocation && exists|i: int, j: int|
                    0 <= i < j < observations.len() && model::target_key(#[trigger] observations[i]) == model::target_key(
                        #[trigger] observations[j],
                    )
                ||| error == EvidenceError::TooManyOccurrences
                ||| error == EvidenceError::InvalidHashIndex
                ||| error == EvidenceError::MissingIndexedOccurrence
            }
        }),
{
    if m.reconcile_error(Map::empty(), observations) is Some {
        preparation_laws::lemma_matching_errors(m, Map::empty(), observations);
    }
}

/// The failures of a block go on record as incidents under their own times and the next numbers, in
/// their order, their messages cut to 4096 characters; and the end of a stall behind them, under the
/// time of the observation.
pub proof fn law_the_failures_of_a_block_go_on_record(
    m: EvidenceModel,
    cursor: BlockCursor,
    timestamp_ms: u64,
    observations: Seq<TargetObservation>,
    system_txs: u64,
    failures: Seq<IncidentModel>,
    usage: DiskUsage,
    now: u64,
    i: int,
)
    requires
        m.observe(cursor, timestamp_ms, observations, system_txs, failures, usage, now) is Ok,
        m.progress.incident_sequence + failures.len() + 1 <= u64::MAX,
        0 <= i < failures.len(),
    ensures
        ({
            let incidents = m.settle(
                m.observe(cursor, timestamp_ms, observations, system_txs, failures, usage, now)->Ok_0.0,
            ).store.incidents;
            let key = bytes::be(failures[i].observed_at_ms as nat, 8) + bytes::be(
                (m.progress.incident_sequence + i + 1) as nat,
                8,
            );
            let limit = if failures[i].message.len() <= 4096 { failures[i].message.len() as int } else { 4096 };
            &&& incidents.contains_key(key)
            &&& incidents[key].observed_at_ms == failures[i].observed_at_ms
            &&& incidents[key].stage == failures[i].stage
            &&& incidents[key].message == failures[i].message.take(limit)
            &&& incidents[key].history_failure == failures[i].history_failure
        }),
{
    let first = m.progress.incident_sequence as nat;
    let part = |i: int| seq![EvidenceModel::incident_write(failures[i], (first + i + 1) as nat)];
    let closing = if m.progress.stall_open {
        seq![EvidenceModel::incident_write(EvidenceModel::resumed(now), first + failures.len() + 1)]
    } else {
        Seq::empty()
    };
    let matched = m.reconcile_writes(Map::empty(), observations);
    let filed = fold::gathered(failures.len(), part);
    let commit = m.observe(cursor, timestamp_ms, observations, system_txs, failures, usage, now)->Ok_0.0->0;
    assert(commit.writes == matched + (filed + closing));
    assert(matched + (filed + closing) =~= (matched + filed) + closing);
    store::lemma_write_all_concat(m.store, matched + filed, closing);
    store::lemma_write_all_concat(m.store, matched, filed);
    let at = m.store.write_all(matched);
    let (then, after) = (m.store.write_all(matched + filed), m.store.write_all(commit.writes));
    lemma_incidents_filed(at, failures, first, failures.len(), part, i);
    let key = model::incident_key(failures[i].observed_at_ms, (first + i + 1) as nat);
    if m.progress.stall_open {
        assert(closing.drop_last() =~= Seq::empty());
        assert(then.write_all(closing.drop_last()) == then);
        lemma_numbers_differ(failures[i].observed_at_ms, (first + i + 1) as nat, now, first + failures.len() + 1);
    } else {
        assert(then.write_all(closing) == then);
    }
    assert(after.incidents[key] == then.incidents[key]);
    assert(failures[i].message.take(failures[i].message.len() as int) =~= failures[i].message);
}

proof fn lemma_incidents_filed(
    at: StoreModel,
    failures: Seq<IncidentModel>,
    first: nat,
    n: nat,
    part: spec_fn(int) -> Seq<WriteModel>,
    i: int,
)
    requires
        0 <= i < n <= failures.len(),
        first + failures.len() <= u64::MAX,
        part == (|i: int| seq![EvidenceModel::incident_write(failures[i], (first + i + 1) as nat)]),
    ensures
        ({
            let key = model::incident_key(failures[i].observed_at_ms, (first + i + 1) as nat);
            let after = at.write_all(fold::gathered(n, part));
            &&& after.incidents.contains_key(key)
            &&& after.incidents[key] == (IncidentModel { message: store::bounded(failures[i].message), ..failures[i] })
        }),
    decreases n,
{
    let before = (n - 1) as nat;
    store::lemma_write_all_concat(at, fold::gathered(before, part), part(n - 1));
    let mid = at.write_all(fold::gathered(before, part));
    assert(part(n - 1).drop_last() =~= Seq::empty());
    assert(mid.write_all(part(n - 1).drop_last()) == mid);
    if i < n - 1 {
        lemma_incidents_filed(at, failures, first, before, part, i);
        lemma_numbers_differ(
            failures[i].observed_at_ms,
            (first + i + 1) as nat,
            failures[n - 1].observed_at_ms,
            (first + n) as nat,
        );
    }
}

/// Incidents with different numbers have different keys.
proof fn lemma_numbers_differ(a_ms: u64, a: nat, b_ms: u64, b: nat)
    requires
        a != b,
        a <= u64::MAX,
        b <= u64::MAX,
    ensures
        model::incident_key(a_ms, a) != model::incident_key(b_ms, b),
{
    bytes::lemma_span16();
    bytes::lemma_be_value(a, 8);
    bytes::lemma_be_value(b, 8);
    bytes::lemma_be_len(a_ms as nat, 8);
    bytes::lemma_be_len(b_ms as nat, 8);
    bytes::lemma_be_len(a, 8);
    bytes::lemma_be_len(b, 8);
    assert(model::incident_key(a_ms, a).skip(8) =~= bytes::be(a, 8));
    assert(model::incident_key(b_ms, b).skip(8) =~= bytes::be(b, 8));
}

/// A record gets a target occurrence of its own hash, with the receipt that was shown for it, and only
/// where it had none; the occurrence is one that this block showed or one that waited.
pub proof fn law_a_record_gets_a_target_of_its_hash(
    m: EvidenceModel,
    cursor: BlockCursor,
    timestamp_ms: u64,
    observations: Seq<TargetObservation>,
    system_txs: u64,
    failures: Seq<IncidentModel>,
    usage: DiskUsage,
    now: u64,
    key: Seq<u8>,
)
    requires
        m.consistent(),
        intake_laws::of_block(cursor, observations),
        m.observe(cursor, timestamp_ms, observations, system_txs, failures, usage, now) is Ok,
        m.store.records.contains_key(key),
    ensures
        ({
            let after = m.settle(
                m.observe(cursor, timestamp_ms, observations, system_txs, failures, usage, now)->Ok_0.0,
            ).store;
            let (old_record, new_record) = (m.store.records[key], after.records[key]);
            &&& after.records.contains_key(key)
            &&& new_record == (OccurrenceModel { target: new_record.target, ..old_record })
            &&& old_record.target is Some ==> new_record.target == old_record.target
            &&& new_record.target matches Some(target) ==> target.transaction_hash == old_record.transaction.hash
        }),
{
    intake_laws::law_observation_consumes_each_target_once(
        m,
        cursor,
        timestamp_ms,
        observations,
        system_txs,
        failures,
        usage,
        now,
    );
    let after = m.settle(m.observe(cursor, timestamp_ms, observations, system_txs, failures, usage, now)->Ok_0.0);
    assert(after.store.records.contains_key(key));
}

// Source receipts.

/// The receipts of a source block are taken if and only if they are those of the block after the last
/// one that had its own, there is one for each of its transactions, and every occurrence of it is on
/// record. Then the receipt cursor moves to the block, and nothing else of the progress does.
pub proof fn law_receipts_are_taken_block_by_block(m: EvidenceModel, block: SourceBlockModel, receipts: Seq<ReceiptSummary>)
    ensures
        m.observe_source(block, receipts) is Ok <==> {
            &&& block.cursor.height == m.progress.source_receipts.height + 1
            &&& receipts.len() == block.hashes.len()
            &&& forall|i: int| 0 <= i < block.occurrences.len() ==> m.occurrence(#[trigger] block.occurrences[i]) is Some
        },
        m.observe_source(block, receipts) matches Err(error) ==> {
            &&& error == EvidenceError::ReceiptsNotContiguous <==> block.cursor.height != m.progress.source_receipts.height + 1
            &&& error == EvidenceError::ReceiptCountMismatch <==> block.cursor.height == m.progress.source_receipts.height + 1
                && receipts.len() != block.hashes.len()
            &&& error == EvidenceError::MissingReceiptOccurrence <==> block.cursor.height
                == m.progress.source_receipts.height + 1 && receipts.len() == block.hashes.len()
        },
        m.observe_source(block, receipts) matches Ok((commit, _)) ==> m.settle(commit).progress == (Progress {
            source_receipts: block.cursor,
            ..m.progress
        }),
{
}

/// A receipt goes to the occurrence at its position and to no other; a record that is not of the block
/// stays as it is.
pub proof fn law_a_receipt_goes_to_its_position(m: EvidenceModel, block: SourceBlockModel, receipts: Seq<ReceiptSummary>, key: Seq<u8>)
    requires
        m.consistent(),
        intake_laws::stored_block(m, block),
        m.observe_source(block, receipts) is Ok,
        m.store.records.contains_key(key),
    ensures
        ({
            let after = m.settle(m.observe_source(block, receipts)->Ok_0.0).store;
            let (old_record, new_record) = (m.store.records[key], after.records[key]);
            &&& after.records.contains_key(key)
            &&& new_record == (OccurrenceModel { source_receipt: new_record.source_receipt, ..old_record })
            &&& if block.occurrences.contains(old_record.id()) {
                new_record.source_receipt == Some(receipts[old_record.source.index as int])
            } else {
                new_record.source_receipt == old_record.source_receipt
            }
        }),
{
    let ids = block.occurrences;
    let part = |i: int|
        m.record_writes(
            EvidenceModel::with_source_receipt(
                m.store.records[ids[i].key_bytes()],
                receipts[ids[i].source_index as int],
            ),
        );
    intake_laws::law_receipts_go_to_their_occurrences(m, block, receipts);
    let after = m.settle(m.observe_source(block, receipts)->Ok_0.0);
    assert(after.store.records.contains_key(key));
    let id = m.store.records[key].id();
    if ids.contains(id) {
        let i = choose|i: int| 0 <= i < ids.len() && ids[i] == id;
        assert(after.occurrence(ids[i]) is Some);
    } else {
        let holds = |at: StoreModel| at.records.contains_key(key) && at.records[key] == m.store.records[key];
        assert forall|i: int, at: StoreModel|
            0 <= i < ids.len() && #[trigger] holds(at) implies holds(#[trigger] at.write_all(part(i))) by {
            assert(m.store.blocks.contains_key(model::height_key(block.cursor.height)));
            let stored = m.store.records[ids[i].key_bytes()];
            let record = EvidenceModel::with_source_receipt(stored, receipts[ids[i].source_index as int]);
            assert(m.occurrence(ids[i]) is Some);
            assert(stored.id().key_bytes() == ids[i].key_bytes());
            crate::evidence::consistency::lemma_record_written(at, m, record);
            assert(record.id() == stored.id());
            if ids[i].key_bytes() == key {
                crate::state::law_keys_are_exact(ids[i], id);
                assert(ids.contains(ids[i]));
            }
        }
        crate::evidence::consistency::lemma_kept(m.store, ids.len(), part, holds);
        let filed = fold::gathered(ids.len(), part);
        let commit = m.observe_source(block, receipts)->Ok_0.0->0;
        if commit.writes != filed {
            assert(commit.writes.drop_last() =~= filed);
        }
        assert(holds(m.store.write_all(filed)));
        assert(after.store.records == m.store.write_all(filed).records);
    }
}

// Incidents.

/// An incident goes on record under its time and the next number, as it was reported and with its
/// message cut to 4096 characters, and is counted as a failure of history or of observation, as it
/// says; every other incident and count stays.
pub proof fn law_an_incident_goes_on_record_as_reported(
    m: EvidenceModel,
    stage: Seq<char>,
    message: Seq<char>,
    history_failure: bool,
    now: u64,
)
    requires
        m.progress.incident_sequence < u64::MAX,
        history_failure ==> m.progress.history_failures < u64::MAX,
        !history_failure ==> m.progress.observation_failures < u64::MAX,
    ensures
        ({
            let after = m.settle(Some(m.report(stage, message, history_failure, now)));
            let key = bytes::be(now as nat, 8) + bytes::be((m.progress.incident_sequence + 1) as nat, 8);
            let limit = if message.len() <= 4096 { message.len() as int } else { 4096 };
            &&& after.store.incidents == m.store.incidents.insert(
                key,
                (IncidentModel { observed_at_ms: now, stage, message: message.take(limit), history_failure }),
            )
            &&& after.progress.incident_sequence == m.progress.incident_sequence + 1
            &&& after.progress.history_failures == m.progress.history_failures + (if history_failure { 1int } else { 0int })
            &&& after.progress.observation_failures == m.progress.observation_failures + (if history_failure {
                0int
            } else {
                1int
            })
            &&& after.progress == (Progress {
                incident_sequence: after.progress.incident_sequence,
                history_failures: after.progress.history_failures,
                observation_failures: after.progress.observation_failures,
                ..m.progress
            })
        }),
{
    let commit = m.report(stage, message, history_failure, now);
    assert(commit.writes.drop_last() =~= Seq::empty());
    assert(m.store.write_all(commit.writes.drop_last()) == m.store);
    assert(message.take(message.len() as int) =~= message);
}

/// A stall that a target block ends is said to have ended, once.
pub proof fn law_the_end_of_a_stall_is_said(
    m: EvidenceModel,
    cursor: BlockCursor,
    timestamp_ms: u64,
    observations: Seq<TargetObservation>,
    system_txs: u64,
    failures: Seq<IncidentModel>,
    usage: DiskUsage,
    now: u64,
)
    requires
        m.observe(cursor, timestamp_ms, observations, system_txs, failures, usage, now) is Ok,
        m.progress.stall_open,
    ensures
        ({
            let incidents = m.settle(
                m.observe(cursor, timestamp_ms, observations, system_txs, failures, usage, now)->Ok_0.0,
            ).store.incidents;
            let key = bytes::be(now as nat, 8) + bytes::be(m.progress.incident_sequence as nat + failures.len() + 1, 8);
            &&& incidents.contains_key(key)
            &&& incidents[key] == (IncidentModel {
                observed_at_ms: now,
                stage: "target_finality"@,
                message: "finality resumed"@,
                history_failure: false,
            })
        }),
{
    intake_laws::law_a_target_block_ends_a_stall(
        m,
        cursor,
        timestamp_ms,
        observations,
        system_txs,
        failures,
        usage,
        now,
        0,
    );
}

} // verus!
