//! Incidents: the numbers that they are filed under, and the stall of the target.

use crate::bytes;
use crate::evidence::history;
use crate::evidence::history::Operation;
use crate::evidence::model;
use crate::evidence::model::EvidenceModel;
use crate::evidence::restart_laws;
use crate::evidence::SourceBlockModel;
use crate::fold;
use crate::state;
use crate::state::{IncidentModel, OccurrenceModel, ReceiptSummary, ReplayIdentity, TargetObservation};
use crate::store::{StoreLimits, StoreModel, WriteModel};
use crate::table;
use vstd::prelude::*;

verus! {

/// The key of an incident does not hold a number after the last.
pub open spec fn numbered_to(key: Seq<u8>, last: u64) -> bool {
    forall|observed_at_ms: u64, number: u64|
        number > last ==> key != #[trigger] model::incident_key(observed_at_ms, number as nat)
}

/// No incident has a number after the last that was given.
pub open spec fn numbered(m: EvidenceModel) -> bool {
    forall|key: Seq<u8>| #[trigger] m.store.incidents.contains_key(key) ==> numbered_to(
        key,
        m.progress.incident_sequence,
    )
}

/// A batch files no incident under a number after the last.
spec fn files_numbered(writes: Seq<WriteModel>, last: u64) -> bool {
    forall|i: int| 0 <= i < writes.len() ==> ((#[trigger] writes[i]) matches WriteModel::Incident { key, .. }
        ==> numbered_to(key, last))
}

proof fn lemma_filed(at: StoreModel, writes: Seq<WriteModel>, last: u64)
    requires
        files_numbered(writes, last),
        forall|key: Seq<u8>| #[trigger] at.incidents.contains_key(key) ==> numbered_to(key, last),
    ensures
        forall|key: Seq<u8>| #[trigger] at.write_all(writes).incidents.contains_key(key) ==> numbered_to(key, last),
    decreases writes.len(),
{
    if writes.len() > 0 {
        let rest = writes.drop_last();
        assert forall|i: int| 0 <= i < rest.len() implies ((#[trigger] rest[i]) matches WriteModel::Incident { key, .. }
            ==> numbered_to(key, last)) by {
            assert(rest[i] == writes[i]);
        }
        lemma_filed(at, rest, last);
        assert(writes[writes.len() - 1] == writes.last());
    }
}

proof fn lemma_joined(a: Seq<WriteModel>, b: Seq<WriteModel>, last: u64)
    requires
        files_numbered(a, last),
        files_numbered(b, last),
    ensures
        files_numbered(a + b, last),
{
    let all = a + b;
    assert forall|i: int| 0 <= i < all.len() implies ((#[trigger] all[i]) matches WriteModel::Incident { key, .. }
        ==> numbered_to(key, last)) by {
        if i < a.len() {
            assert(all[i] == a[i]);
        } else {
            assert(all[i] == b[i - a.len()]);
        }
    }
}

proof fn lemma_gathered(n: nat, part: spec_fn(int) -> Seq<WriteModel>, last: u64)
    requires
        forall|i: int| 0 <= i < n ==> files_numbered(#[trigger] part(i), last),
    ensures
        files_numbered(fold::gathered(n, part), last),
    decreases n,
{
    if n > 0 {
        lemma_gathered((n - 1) as nat, part, last);
        lemma_joined(fold::gathered((n - 1) as nat, part), part(n - 1), last);
    }
}

/// A key holds its own number and no other.
proof fn lemma_key(observed_at_ms: u64, number: u64, last: u64)
    requires
        number <= last,
    ensures
        numbered_to(model::incident_key(observed_at_ms, number as nat), last),
{
    let key = model::incident_key(observed_at_ms, number as nat);
    assert forall|other_ms: u64, other: u64| other > last implies key != #[trigger] model::incident_key(
        other_ms,
        other as nat,
    ) by {
        let another = model::incident_key(other_ms, other as nat);
        bytes::lemma_span16();
        bytes::lemma_be_value(number as nat, 8);
        bytes::lemma_be_value(other as nat, 8);
        bytes::lemma_be_len(observed_at_ms as nat, 8);
        bytes::lemma_be_len(other_ms as nat, 8);
        bytes::lemma_be_len(number as nat, 8);
        bytes::lemma_be_len(other as nat, 8);
        assert(key.skip(8) =~= bytes::be(number as nat, 8));
        assert(another.skip(8) =~= bytes::be(other as nat, 8));
    }
}

proof fn lemma_matching(m: EvidenceModel, records: Map<Seq<u8>, OccurrenceModel>, targets: Seq<TargetObservation>, last: u64)
    ensures
        files_numbered(m.reconcile_writes(records, targets), last),
{
    let hashes = EvidenceModel::hash_list(records, targets);
    let fresh = EvidenceModel::by_target_key(targets);
    let after = m.reconciled(records, targets);
    let keys = table::listed(after);
    let seen = |i: int| EvidenceModel::unmatched_writes(targets[i]);
    let matched = |i: int| m.matching_writes(m.matched_first(records, fresh, hashes, i as nat), fresh, hashes[i]);
    let filed = |i: int| m.record_writes(after[keys[i]]);
    lemma_gathered(targets.len(), seen, last);
    assert forall|i: int| 0 <= i < hashes.len() implies files_numbered(#[trigger] matched(i), last) by {
        let all = m.with_stored(m.matched_first(records, fresh, hashes, i as nat), hashes[i]);
        let found = m.candidates(fresh, hashes[i]);
        let listed = table::listed(found);
        lemma_gathered(
            EvidenceModel::pairs(EvidenceModel::open_records(all, hashes[i]), listed),
            |j: int| EvidenceModel::matched_writes(listed[j], found[listed[j]]),
            last,
        );
    }
    lemma_gathered(hashes.len(), matched, last);
    lemma_gathered(keys.len(), filed, last);
    lemma_joined(fold::gathered(targets.len(), seen), fold::gathered(hashes.len(), matched), last);
    lemma_joined(
        fold::gathered(targets.len(), seen) + fold::gathered(hashes.len(), matched),
        fold::gathered(keys.len(), filed),
        last,
    );
}

proof fn lemma_preparing(m: EvidenceModel, operation: Operation)
    requires
        operation is Prepare,
        numbered(m),
    ensures
        numbered(m.after(operation)),
{
    if let Operation::Prepare { cursor, timestamp_ms, transactions, usage, now } = operation {
        if let Ok((Some(commit), _)) = m.prepare(cursor, timestamp_ms, transactions, usage, now) {
            let last = m.progress.incident_sequence;
            let n = transactions.len();
            let records = m.prepared_records(cursor, timestamp_ms, transactions, now, n);
            let block = EvidenceModel::prepared_block(cursor, timestamp_ms, transactions);
            let fresh = fold::gathered(n, m.fresh_writes(cursor, transactions));
            let filed = WriteModel::Block { key: model::height_key(cursor.height), value: Some(block) };
            lemma_gathered(n, m.fresh_writes(cursor, transactions), last);
            lemma_joined(fresh, seq![filed], last);
            assert(fresh.push(filed) =~= fresh + seq![filed]);
            lemma_matching(m, records, Seq::empty(), last);
            lemma_joined(fresh.push(filed), m.reconcile_writes(records, Seq::empty()), last);
            lemma_filed(m.store, commit.writes, last);
        }
    }
}

proof fn lemma_receiving(m: EvidenceModel, block: SourceBlockModel, receipts: Seq<ReceiptSummary>)
    requires
        numbered(m),
        m.observe_source(block, receipts) is Ok,
    ensures
        numbered(m.settle(m.observe_source(block, receipts)->Ok_0.0)),
{
    let commit = m.observe_source(block, receipts)->Ok_0.0->0;
    let last = m.progress.incident_sequence;
    let ids = block.occurrences;
    let part = |i: int|
        m.record_writes(
            EvidenceModel::with_source_receipt(
                m.store.records[ids[i].key_bytes()],
                receipts[ids[i].source_index as int],
            ),
        );
    let enriched = fold::gathered(ids.len(), part);
    let filed = WriteModel::Block { key: model::height_key(block.cursor.height), value: None };
    assert(commit.writes == enriched.push(filed) || commit.writes == enriched);
    assert(files_numbered(commit.writes, last)) by {
        assert forall|i: int| 0 <= i < ids.len() implies files_numbered(#[trigger] part(i), last) by {}
        lemma_gathered(ids.len(), part, last);
        lemma_joined(enriched, seq![filed], last);
        assert(enriched.push(filed) =~= enriched + seq![filed]);
    }
    lemma_filed(m.store, commit.writes, last);
}

proof fn lemma_observing(m: EvidenceModel, operation: Operation)
    requires
        operation is Observe,
        numbered(m),
        m.admits(operation),
    ensures
        numbered(m.after(operation)),
{
    if let Operation::Observe { cursor, timestamp_ms, observations, system_txs, failures, usage, now } = operation {
        if let Ok((Some(commit), _)) = m.observe(
            cursor,
            timestamp_ms,
            observations,
            system_txs,
            failures,
            usage,
            now,
        ) {
            let first = m.progress.incident_sequence as nat;
            let part = |i: int| seq![EvidenceModel::incident_write(failures[i], (first + i + 1) as nat)];
            let closing = if m.progress.stall_open {
                seq![EvidenceModel::incident_write(EvidenceModel::resumed(now), first + failures.len() + 1)]
            } else {
                Seq::empty()
            };
            let filed = fold::gathered(failures.len(), part);
            lemma_one_each(failures.len(), part);
            let last = (first + (filed + closing).len()) as u64;
            assert(commit.progress->0.incident_sequence == last);
            assert(commit.writes == m.reconcile_writes(Map::empty(), observations) + (filed + closing));
            assert forall|i: int| 0 <= i < failures.len() implies files_numbered(#[trigger] part(i), last) by {
                lemma_key(failures[i].observed_at_ms, (first + i + 1) as u64, last);
            }
            lemma_gathered(failures.len(), part, last);
            if m.progress.stall_open {
                lemma_key(now, (first + failures.len() + 1) as u64, last);
            }
            lemma_joined(filed, closing, last);
            lemma_matching(m, Map::empty(), observations, last);
            lemma_joined(m.reconcile_writes(Map::empty(), observations), filed + closing, last);
            lemma_later(m, last);
            lemma_filed(m.store, commit.writes, last);
        }
    }
}

pub proof fn lemma_one_each(n: nat, part: spec_fn(int) -> Seq<WriteModel>)
    requires
        forall|i: int| 0 <= i < n ==> (#[trigger] part(i)).len() == 1,
    ensures
        fold::gathered(n, part).len() == n,
    decreases n,
{
    if n > 0 {
        lemma_one_each((n - 1) as nat, part);
    }
}

/// What is numbered up to one number is numbered up to a later one.
proof fn lemma_later(m: EvidenceModel, last: u64)
    requires
        numbered(m),
        m.progress.incident_sequence <= last,
    ensures
        forall|key: Seq<u8>| #[trigger] m.store.incidents.contains_key(key) ==> numbered_to(key, last),
{
    assert forall|key: Seq<u8>| #[trigger] m.store.incidents.contains_key(key) implies numbered_to(key, last) by {
        assert(numbered_to(key, m.progress.incident_sequence));
    }
}

proof fn lemma_retiring(m: EvidenceModel, retain_blocks: u64)
    requires
        numbered(m),
        m.retire(retain_blocks) is Ok,
    ensures
        numbered(m.settle(m.retire(retain_blocks)->Ok_0)),
{
    if let Some(commit) = m.retire(retain_blocks)->Ok_0 {
        let last = m.progress.incident_sequence;
        let (unmatched, clean) = (m.unmatched_keys(), m.clean_keys());
        let forgotten = |i: int| m.forget_unmatched(unmatched[i]);
        let retired = |i: int| m.forget_clean(clean[i]);
        let (a, b) = (
            fold::gathered(m.retired_unmatched(retain_blocks), forgotten),
            fold::gathered(m.retired_clean(retain_blocks), retired),
        );
        assert(commit.writes == a + b);
        assert(files_numbered(commit.writes, last)) by {
            lemma_gathered(m.retired_unmatched(retain_blocks), forgotten, last);
            lemma_gathered(m.retired_clean(retain_blocks), retired, last);
            lemma_joined(a, b, last);
        }
        lemma_filed(m.store, commit.writes, last);
    }
}

/// Every operation files its incidents under numbers that were not given before.
pub proof fn law_every_operation_numbers_its_incidents(m: EvidenceModel, operation: Operation)
    requires
        m.healthy(),
        m.store.meta is Some,
        m.admits(operation),
        numbered(m),
    ensures
        numbered(m.after(operation)),
{
    match operation {
        Operation::Open { identity, max_rounds, limits, now } => history::lemma_open(
            m,
            identity,
            max_rounds,
            limits,
            now,
        ),
        Operation::Prepare { .. } => lemma_preparing(m, operation),
        Operation::Begin { ids, recovery, now } => history::lemma_begin(m, ids, recovery, now),
        Operation::Complete { completed, source } => history::lemma_complete(m, completed, source),
        Operation::Sweep => history::lemma_sweep(m),
        Operation::Receive { block, receipts } => {
            if m.observe_source(block, receipts) is Ok {
                lemma_receiving(m, block, receipts);
            }
        },
        Operation::Observe { .. } => lemma_observing(m, operation),
        Operation::Report { stage, message, history_failure, now } => {
            let last = (m.progress.incident_sequence + 1) as u64;
            lemma_key(now, last, last);
            lemma_later(m, last);
            lemma_filed(m.store, m.report(stage, message, history_failure, now).writes, last);
        },
        Operation::Check { threshold_ms, now } => {
            if let Some(commit) = m.check(threshold_ms, now) {
                let last = (m.progress.incident_sequence + 1) as u64;
                lemma_key(now, last, last);
                lemma_later(m, last);
                lemma_filed(m.store, commit.writes, last);
            }
        },
        Operation::Retire { retain_blocks } => {
            if m.retire(retain_blocks) is Ok {
                lemma_retiring(m, retain_blocks);
            }
        },
        Operation::TakeJournal => {
            assert(m.after(operation).store == m.store);
        },
    }
}

/// Over any run of operations and restarts from a new store on, no incident ever takes the place of
/// another: each has a number that was not given before.
pub proof fn law_incidents_are_numbered_over_every_run(
    identity: ReplayIdentity,
    max_rounds: u32,
    limits: StoreLimits,
    now: u64,
    operations: Seq<Operation>,
)
    requires
        identity.checkpoint_height < u64::MAX,
        max_rounds > 0,
        EvidenceModel::opened(StoreModel::nothing(), identity, max_rounds, limits, now)->Ok_0.runs(operations),
    ensures
        numbered(
            EvidenceModel::opened(StoreModel::nothing(), identity, max_rounds, limits, now)->Ok_0.run(operations),
        ),
    decreases operations.len(),
{
    let start = EvidenceModel::opened(StoreModel::nothing(), identity, max_rounds, limits, now)->Ok_0;
    restart_laws::law_a_new_store_stands_at_the_checkpoint(identity, max_rounds, limits, now);
    if operations.len() > 0 {
        let rest = operations.drop_last();
        law_incidents_are_numbered_over_every_run(identity, max_rounds, limits, now, rest);
        history::law_every_run_keeps_the_store_healthy(start, rest);
        law_every_operation_numbers_its_incidents(start.run(rest), operations.last());
    }
}

/// After a check the stall is open exactly if it was open or the target made no progress for the
/// threshold. The check that opens it adds one incident and no other check adds any: not while the
/// stall is open, whatever the threshold and the time. No failure is counted.
pub proof fn law_a_stall_is_one_incident(
    m: EvidenceModel,
    threshold_ms: u64,
    now: u64,
    later_threshold_ms: u64,
    later: u64,
)
    requires
        numbered(m),
        m.stalls(threshold_ms, now) ==> m.progress.incident_sequence < u64::MAX,
    ensures
        ({
            let after = m.settle(m.check(threshold_ms, now));
            let key = model::incident_key(now, m.progress.incident_sequence as nat + 1);
            &&& after.progress.stall_open <==> m.progress.stall_open || (threshold_ms > 0 && state::elapsed(
                now,
                m.progress.last_target_progress_ms,
            ) >= threshold_ms)
            &&& !m.progress.stall_open && after.progress.stall_open ==> {
                &&& !m.store.incidents.contains_key(key)
                &&& after.store.incidents == m.store.incidents.insert(
                    key,
                    (IncidentModel {
                        observed_at_ms: now,
                        stage: "target_finality"@,
                        message: "no finalized target progress within configured horizon"@,
                        history_failure: false,
                    }),
                )
                &&& after.progress.incident_sequence == m.progress.incident_sequence + 1
            }
            &&& m.progress.stall_open || !after.progress.stall_open ==> after == m
            &&& after.progress.history_failures == m.progress.history_failures
            &&& after.progress.observation_failures == m.progress.observation_failures
            &&& after.progress.system_failures == m.progress.system_failures
            &&& after.progress.stall_open ==> after.settle(after.check(later_threshold_ms, later)) == after
        }),
{
    if let Some(commit) = m.check(threshold_ms, now) {
        let after = m.settle(Some(commit));
        let write = EvidenceModel::incident_write(
            EvidenceModel::stalled(now),
            (m.progress.incident_sequence + 1) as nat,
        );
        reveal_strlit("no finalized target progress within configured horizon");
        assert(commit.writes.drop_last() =~= Seq::empty());
        assert(m.store.write_all(commit.writes.drop_last()) == m.store);
        assert(after.store.incidents == m.store.write(write).incidents);
        let key = model::incident_key(now, (m.progress.incident_sequence + 1) as u64 as nat);
        if m.store.incidents.contains_key(key) {
            assert(numbered_to(key, m.progress.incident_sequence));
        }
    }
}

} // verus!
