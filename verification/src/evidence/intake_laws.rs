//! What preparing and observing blocks keeps.

use crate::evidence::consistency;
use crate::evidence::matching;
use crate::evidence::model;
use crate::evidence::model::EvidenceModel;
use crate::evidence::{Progress, SourceBlockModel};
use crate::fold;
use crate::source::{Envelope, TxMetadata};
use crate::state;
use crate::state::{BlockCursor, IncidentModel, OccurrenceId, OccurrenceModel, ReceiptSummary, TargetObservation};
use crate::store;
use crate::store::{DiskUsage, StoreModel, WriteModel};
use vstd::prelude::*;

verus! {

/// The batch only files incidents.
pub open spec fn incidents_alone(writes: Seq<WriteModel>) -> bool {
    forall|i: int| 0 <= i < writes.len() ==> #[trigger] writes[i] is Incident
}

/// Filing incidents changes no other column.
pub proof fn lemma_incidents_alone(at: StoreModel, writes: Seq<WriteModel>)
    requires
        incidents_alone(writes),
    ensures
        at.write_all(writes) == (StoreModel { incidents: at.write_all(writes).incidents, ..at }),
    decreases writes.len(),
{
    if writes.len() > 0 {
        assert forall|i: int| 0 <= i < writes.drop_last().len() implies #[trigger] writes.drop_last()[i] is Incident by {
            assert(writes.drop_last()[i] == writes[i]);
        }
        lemma_incidents_alone(at, writes.drop_last());
        assert(writes[writes.len() - 1] is Incident);
    }
}

/// Parts that only file incidents make such a batch.
proof fn lemma_incidents_gathered(n: nat, part: spec_fn(int) -> Seq<WriteModel>)
    requires
        forall|i: int| 0 <= i < n ==> incidents_alone(#[trigger] part(i)),
    ensures
        incidents_alone(fold::gathered(n, part)),
    decreases n,
{
    if n > 0 {
        lemma_incidents_gathered((n - 1) as nat, part);
        let (a, b) = (fold::gathered((n - 1) as nat, part), part(n - 1));
        assert forall|i: int| 0 <= i < (a + b).len() implies #[trigger] (a + b)[i] is Incident by {
            if i < a.len() {
                assert((a + b)[i] == a[i]);
            } else {
                assert((a + b)[i] == b[i - a.len()]);
            }
        }
    }
}

/// The stored blocks stay right where the records stay and only their observations change.
pub proof fn lemma_blocks_stay(
    m: EvidenceModel,
    after: EvidenceModel,
)
    requires
        m.consistent(),
        after.store.blocks == m.store.blocks,
        after.progress.source == m.progress.source,
        after.progress.source_receipts == m.progress.source_receipts,
        forall|key: Seq<u8>| #[trigger] after.store.records.contains_key(key) <==> m.store.records.contains_key(key),
        forall|key: Seq<u8>| #[trigger] after.store.records.contains_key(key) ==> after.store.records[key].source
            == m.store.records[key].source && after.store.records[key].transaction == m.store.records[key].transaction,
    ensures
        consistency::blocks_right(after.store, after.progress),
        consistency::blocks_kept(after.store, after.progress),
        after.store.hashes == m.store.hashes ==> consistency::hashes_right(after.store.records, after.store.hashes),
{
    let records = after.store.records;
    assert forall|key: Seq<u8>| #[trigger] after.store.blocks.contains_key(key) implies {
        let block = after.store.blocks[key];
        &&& key == model::height_key(block.cursor.height)
        &&& block.cursor.height > after.progress.source.height || block.cursor.height > after.progress.source_receipts.height
        &&& consistency::block_right(records, block)
    } by {
        let block = after.store.blocks[key];
        assert(m.store.blocks.contains_key(key));
        assert forall|i: int| 0 <= i < block.occurrences.len() implies {
            let id = #[trigger] block.occurrences[i];
            &&& id.source_height == block.cursor.height
            &&& id.source_index < block.hashes.len()
            &&& records.contains_key(id.key_bytes())
            &&& records[id.key_bytes()].source.block == block.cursor
            &&& records[id.key_bytes()].transaction.hash == block.hashes[id.source_index as int]
        } by {
            assert(m.store.records.contains_key(block.occurrences[i].key_bytes()));
            assert(records.contains_key(block.occurrences[i].key_bytes()));
        }
    }
    assert forall|key: Seq<u8>| #[trigger] records.contains_key(key) && records[key].source.block.height
        > after.progress.source.height implies {
        let height = model::height_key(records[key].source.block.height);
        &&& after.store.blocks.contains_key(height)
        &&& after.store.blocks[height].occurrences.contains(records[key].id())
    } by {
        assert(m.store.records.contains_key(key));
    }
    if after.store.hashes == m.store.hashes {
        assert forall|key: Seq<u8>| #[trigger] records.contains_key(key) implies after.store.hashes.contains_key(
            state::index_key(records[key].transaction.hash, records[key].id()),
        ) by {
            assert(m.store.records.contains_key(key));
        }
        assert forall|key: Seq<u8>| #[trigger] after.store.hashes.contains_key(key) implies consistency::hash_key_right(records, key) by {
            assert(m.store.hashes.contains_key(key));
            assert(records.contains_key(key.skip(32)));
        }
    }
}

/// The observations of a target block stand in it, each at its own position.
pub open spec fn of_block(cursor: BlockCursor, observations: Seq<TargetObservation>) -> bool {
    &&& forall|i: int| 0 <= i < observations.len() ==> (#[trigger] observations[i]).location.block == cursor
    &&& forall|i: int, j: int| 0 <= i < j < observations.len() ==> (#[trigger] observations[i]).location.index
        != (#[trigger] observations[j]).location.index
}

/// What a new target block shows is new.
pub proof fn lemma_block_is_new(m: EvidenceModel, cursor: BlockCursor, observations: Seq<TargetObservation>)
    requires
        m.consistent(),
        cursor.height > m.progress.target.height,
        of_block(cursor, observations),
    ensures
        matching::incoming_right(m, observations),
{
    assert forall|i: int| 0 <= i < observations.len() implies !m.store.unmatched_by_height.contains_key(
        model::location(#[trigger] observations[i]).key_bytes(),
    ) by {
        let place = model::location(observations[i]).key_bytes();
        if m.store.unmatched_by_height.contains_key(place) {
            let key = m.store.unmatched_by_height[place];
            assert(m.store.unmatched.contains_key(key));
            state::law_keys_are_exact(
                model::location(observations[i]),
                model::location(m.store.unmatched[key]),
            );
        }
    }
    assert forall|key: Seq<u8>, i: int| #[trigger] m.store.records.contains_key(key) && 0 <= i < observations.len() implies (
    m.store.records[key].target matches Some(target) ==> model::target_key(target) != model::target_key(#[trigger] observations[i])) by {
        if m.store.records[key].target is Some {
            let target = m.store.records[key].target.unwrap();
            state::law_index_keys_are_exact(
                target.transaction_hash,
                observations[i].transaction_hash,
                model::location(target),
                model::location(observations[i]),
            );
        }
    }
}

/// The incidents that are filed with a target block: its own and, where a stall was open, its end.
pub open spec fn observation_incidents(m: EvidenceModel, failures: Seq<IncidentModel>, now: u64) -> Seq<WriteModel> {
    let sequence = m.progress.incident_sequence as nat;
    fold::gathered(
        failures.len(),
        |i: int| seq![EvidenceModel::incident_write(failures[i], (sequence + i + 1) as nat)],
    ) + if m.progress.stall_open {
        seq![EvidenceModel::incident_write(EvidenceModel::resumed(now), sequence + failures.len() + 1)]
    } else {
        Seq::empty()
    }
}

pub proof fn lemma_observation_incidents(m: EvidenceModel, failures: Seq<IncidentModel>, now: u64)
    ensures
        incidents_alone(observation_incidents(m, failures, now)),
{
    let sequence = m.progress.incident_sequence as nat;
    let part = |i: int| seq![EvidenceModel::incident_write(failures[i], (sequence + i + 1) as nat)];
    lemma_incidents_gathered(failures.len(), part);
    let (a, all) = (fold::gathered(failures.len(), part), observation_incidents(m, failures, now));
    assert forall|i: int| 0 <= i < all.len() implies #[trigger] all[i] is Incident by {
        if i < a.len() {
            assert(all[i] == a[i]);
        }
    }
}

/// Observing a target block keeps the store consistent. Each of its occurrences, and each that was
/// unmatched before, is now either unmatched or with the one record that consumed it; records keep
/// all else, and a record that had a target occurrence keeps it.
pub proof fn law_observation_consumes_each_target_once(
    m: EvidenceModel,
    cursor: BlockCursor,
    timestamp_ms: u64,
    observations: Seq<TargetObservation>,
    system_txs: u64,
    failures: Seq<IncidentModel>,
    usage: DiskUsage,
    now: u64,
)
    requires
        m.consistent(),
        of_block(cursor, observations),
        m.observe(cursor, timestamp_ms, observations, system_txs, failures, usage, now) is Ok,
    ensures
        ({
            let after = m.settle(
                m.observe(cursor, timestamp_ms, observations, system_txs, failures, usage, now)->Ok_0.0,
            );
            &&& after.consistent()
            &&& m.sound() ==> after.sound()
            &&& matching::all_matched_from(m.store.records, after.store.records)
            &&& after.store.blocks == m.store.blocks
            &&& after.progress.source == m.progress.source
            &&& forall|i: int| 0 <= i < observations.len() ==> matching::on_record(after.store, #[trigger] observations[i])
            &&& forall|key: Seq<u8>| #[trigger] m.store.unmatched.contains_key(key) ==> matching::on_record(
                after.store,
                m.store.unmatched[key],
            )
        }),
{
    let outcome = m.observe(cursor, timestamp_ms, observations, system_txs, failures, usage, now);
    let commit = outcome->Ok_0.0.unwrap();
    let after = m.settle(Some(commit));
    let given = Map::<Seq<u8>, OccurrenceModel>::empty();
    lemma_block_is_new(m, cursor, observations);
    matching::lemma_reconciled(m, m.store, given, observations);
    assert(matching::overlaid(m.store.records, given) =~= m.store.records);
    let matched = m.store.write_all(m.reconcile_writes(given, observations));
    let incidents = observation_incidents(m, failures, now);
    lemma_observation_incidents(m, failures, now);
    assert(commit.writes == m.reconcile_writes(given, observations) + incidents);
    store::lemma_write_all_concat(m.store, m.reconcile_writes(given, observations), incidents);
    lemma_incidents_alone(matched, incidents);
    store::lemma_write_all_finite(m.store, commit.writes);
    lemma_blocks_stay(m, after);
    let filed = m.store.unmatched.union_prefer_right(EvidenceModel::by_target_key(observations));
    assert forall|key: Seq<u8>| #[trigger] filed.contains_key(key) implies filed[key].location.block.height <= cursor.height by {
        lemma_filed_height(m, cursor, observations, key);
    }
    assert(consistency::marks_right(after.store)) by {
        assert(consistency::marks_right(matched));
        assert(matched.pending == after.store.pending && matched.clean == after.store.clean
            && matched.recovery == after.store.recovery && matched.records == after.store.records);
    }
    assert forall|key: Seq<u8>| #[trigger] after.store.unmatched.contains_key(key) implies after.store.unmatched[key].location.block.height <= cursor.height by {
        assert(matched.unmatched.contains_key(key));
        assert(filed.contains_key(key));
    }
    assert forall|key: Seq<u8>| #[trigger] after.store.records.contains_key(key) implies (after.store.records[key].target matches Some(target)
        ==> target.location.block.height <= cursor.height) by {
        assert(matched.records.contains_key(key));
        if after.store.records[key].target is Some {
            let target = after.store.records[key].target.unwrap();
            if after.store.records[key].target != m.store.records[key].target {
                assert(filed.contains_key(model::target_key(target)));
            }
        }
    }
    assert forall|i: int| 0 <= i < observations.len() implies matching::on_record(after.store, #[trigger] observations[i]) by {
        lemma_filed_observation(observations, i);
        let key = model::target_key(observations[i]);
        assert(filed.contains_key(key) && filed[key] == observations[i]);
        if matched.unmatched.contains_key(key) {
            assert(after.store.unmatched.contains_key(key));
        }
    }
    assert forall|key: Seq<u8>| #[trigger] m.store.unmatched.contains_key(key) implies matching::on_record(
        after.store,
        m.store.unmatched[key],
    ) by {
        let target = m.store.unmatched[key];
        assert(filed.contains_key(key));
        crate::evidence::reconcile::lemma_by_target_key(observations, key);
        if EvidenceModel::by_target_key(observations).contains_key(key) {
            let i = choose|i: int| 0 <= i < observations.len() && model::target_key(#[trigger] observations[i]) == key;
            state::law_index_keys_are_exact(
                target.transaction_hash,
                observations[i].transaction_hash,
                model::location(target),
                model::location(observations[i]),
            );
        }
        assert(filed[key] == target);
        if matched.unmatched.contains_key(key) {
            assert(after.store.unmatched.contains_key(key));
        }
    }
}

/// An observation of a block stands under its own key among those of the block.
proof fn lemma_filed_observation(observations: Seq<TargetObservation>, i: int)
    requires
        0 <= i < observations.len(),
        forall|a: int, b: int| 0 <= a < b < observations.len() ==> (#[trigger] observations[a]).location.index
            != (#[trigger] observations[b]).location.index,
    ensures
        EvidenceModel::by_target_key(observations).contains_key(model::target_key(observations[i])),
        EvidenceModel::by_target_key(observations)[model::target_key(observations[i])] == observations[i],
    decreases observations.len(),
{
    let rest = observations.drop_last();
    if i < rest.len() {
        assert forall|a: int, b: int| 0 <= a < b < rest.len() implies (#[trigger] rest[a]).location.index
            != (#[trigger] rest[b]).location.index by {
            assert(rest[a] == observations[a] && rest[b] == observations[b]);
        }
        lemma_filed_observation(rest, i);
        let last = observations[observations.len() - 1];
        assert(observations[i].location.index != last.location.index);
        state::law_index_keys_are_exact(
            observations[i].transaction_hash,
            last.transaction_hash,
            model::location(observations[i]),
            model::location(last),
        );
    }
}

/// After a target block no occurrence that it showed is left apart from a record of its hash that
/// waits: either every record of the hash has a target occurrence or none of the hash is unmatched.
/// A hash with as many unmatched occurrences as a matching reads at most is left out.
pub proof fn law_observation_joins_what_belongs_together(
    m: EvidenceModel,
    cursor: BlockCursor,
    timestamp_ms: u64,
    observations: Seq<TargetObservation>,
    system_txs: u64,
    failures: Seq<IncidentModel>,
    usage: DiskUsage,
    now: u64,
    i: int,
)
    requires
        m.consistent(),
        of_block(cursor, observations),
        m.observe(cursor, timestamp_ms, observations, system_txs, failures, usage, now) is Ok,
        0 <= i < observations.len(),
        matching::all_read(m, observations[i].transaction_hash),
    ensures
        ({
            let after = m.settle(
                m.observe(cursor, timestamp_ms, observations, system_txs, failures, usage, now)->Ok_0.0,
            );
            matching::joined(after.store.records, after.store.unmatched, observations[i].transaction_hash)
        }),
{
    let commit = m.observe(cursor, timestamp_ms, observations, system_txs, failures, usage, now)->Ok_0.0.unwrap();
    let given = Map::<Seq<u8>, OccurrenceModel>::empty();
    lemma_block_is_new(m, cursor, observations);
    matching::lemma_reconciled(m, m.store, given, observations);
    let matched = m.store.write_all(m.reconcile_writes(given, observations));
    let incidents = observation_incidents(m, failures, now);
    lemma_observation_incidents(m, failures, now);
    assert(commit.writes == m.reconcile_writes(given, observations) + incidents);
    store::lemma_write_all_concat(m.store, m.reconcile_writes(given, observations), incidents);
    lemma_incidents_alone(matched, incidents);
    assert(EvidenceModel::concerns(given, observations, observations[i].transaction_hash));
}

proof fn lemma_filed_height(
    m: EvidenceModel,
    cursor: BlockCursor,
    observations: Seq<TargetObservation>,
    key: Seq<u8>,
)
    requires
        m.consistent(),
        cursor.height >= m.progress.target.height,
        of_block(cursor, observations),
        m.store.unmatched.union_prefer_right(EvidenceModel::by_target_key(observations)).contains_key(key),
    ensures
        m.store.unmatched.union_prefer_right(EvidenceModel::by_target_key(observations))[key].location.block.height
            <= cursor.height,
    decreases observations.len(),
{
    if observations.len() > 0 {
        let rest = observations.drop_last();
        assert forall|i: int| 0 <= i < rest.len() implies (#[trigger] rest[i]).location.block == cursor by {
            assert(rest[i] == observations[i]);
        }
        assert forall|i: int, j: int| 0 <= i < j < rest.len() implies (#[trigger] rest[i]).location.index
            != (#[trigger] rest[j]).location.index by {
            assert(rest[i] == observations[i]);
            assert(rest[j] == observations[j]);
        }
        if key == model::target_key(observations.last()) {
            assert(observations[observations.len() - 1].location.block == cursor);
        } else {
            lemma_filed_height(m, cursor, rest, key);
        }
    }
}

/// The transaction at a position of a block is one that is relayed.
pub open spec fn relayed(transactions: Seq<Envelope>, i: int) -> bool {
    transactions[i].classified() matches Ok(TxMetadata::Replayable(_))
}

/// An occurrence is one of the relayed positions of a block.
pub open spec fn relayed_position(cursor: BlockCursor, transactions: Seq<Envelope>, n: nat, id: OccurrenceId) -> bool {
    exists|i: int| 0 <= i < n && #[trigger] relayed(transactions, i) && id == EvidenceModel::occurrence_at(cursor, i)
}

/// The occurrences of a prepared block are its relayed positions.
pub proof fn lemma_prepared_ids(cursor: BlockCursor, transactions: Seq<Envelope>, n: nat)
    requires
        n <= transactions.len(),
    ensures
        forall|j: int| 0 <= j < EvidenceModel::prepared_ids(cursor, transactions, n).len() ==> relayed_position(
            cursor,
            transactions,
            n,
            #[trigger] EvidenceModel::prepared_ids(cursor, transactions, n)[j],
        ),
        forall|i: int| 0 <= i < n && #[trigger] relayed(transactions, i) ==> EvidenceModel::prepared_ids(
            cursor,
            transactions,
            n,
        ).contains(EvidenceModel::occurrence_at(cursor, i)),
    decreases n,
{
    if n > 0 {
        let before = (n - 1) as nat;
        lemma_prepared_ids(cursor, transactions, before);
        let rest = EvidenceModel::prepared_ids(cursor, transactions, before);
        let ids = EvidenceModel::prepared_ids(cursor, transactions, n);
        assert forall|j: int| 0 <= j < ids.len() implies relayed_position(cursor, transactions, n, #[trigger] ids[j]) by {
            if j < rest.len() {
                assert(relayed_position(cursor, transactions, before, rest[j]));
                let i = choose|i: int| 0 <= i < before && #[trigger] relayed(transactions, i) && rest[j] == EvidenceModel::occurrence_at(cursor, i);
                assert(relayed(transactions, i));
            } else {
                assert(relayed(transactions, n - 1));
            }
        }
        assert forall|i: int| 0 <= i < n && #[trigger] relayed(transactions, i) implies ids.contains(EvidenceModel::occurrence_at(cursor, i)) by {
            if i < n - 1 {
                assert(rest.contains(EvidenceModel::occurrence_at(cursor, i)));
                let j = choose|j: int| 0 <= j < rest.len() && rest[j] == EvidenceModel::occurrence_at(cursor, i);
                assert(ids[j] == rest[j]);
            } else {
                assert(ids[ids.len() - 1] == EvidenceModel::occurrence_at(cursor, i));
            }
        }
    }
}

/// The records of a preparation: one for each relayed position, as stored or fresh.
pub proof fn lemma_prepared_records(
    m: EvidenceModel,
    cursor: BlockCursor,
    timestamp_ms: u64,
    transactions: Seq<Envelope>,
    now: u64,
    n: nat,
)
    requires
        m.consistent(),
        n <= transactions.len(),
        forall|i: int| 0 <= i < n && #[trigger] relayed(transactions, i) ==> i <= u32::MAX,
    ensures
        ({
            let given = m.prepared_records(cursor, timestamp_ms, transactions, now, n);
            &&& consistency::records_filed(given)
            &&& given.dom().finite()
            &&& forall|key: Seq<u8>| #[trigger] given.contains_key(key) ==> exists|i: int|
                0 <= i < n && #[trigger] relayed(transactions, i) && EvidenceModel::occurrence_at(cursor, i).key_bytes() == key
            &&& forall|i: int| 0 <= i < n && #[trigger] relayed(transactions, i) ==> {
                let id = EvidenceModel::occurrence_at(cursor, i);
                &&& given.contains_key(id.key_bytes())
                &&& given[id.key_bytes()] == (match m.occurrence(id) {
                    Some(record) => record,
                    None => m.fresh_record(
                        cursor,
                        timestamp_ms,
                        i,
                        transactions[i].metadata().unwrap(),
                        transactions[i].raw@,
                        now,
                    ),
                })
            }
        }),
    decreases n,
{
    if n > 0 {
        let before = (n - 1) as nat;
        lemma_prepared_records(m, cursor, timestamp_ms, transactions, now, before);
        let rest = m.prepared_records(cursor, timestamp_ms, transactions, now, before);
        let given = m.prepared_records(cursor, timestamp_ms, transactions, now, n);
        if relayed(transactions, n - 1) {
            let last = EvidenceModel::occurrence_at(cursor, n - 1);
            assert forall|i: int| 0 <= i < n && #[trigger] relayed(transactions, i) implies ({
                let id = EvidenceModel::occurrence_at(cursor, i);
                &&& given.contains_key(id.key_bytes())
                &&& given[id.key_bytes()] == (match m.occurrence(id) {
                    Some(record) => record,
                    None => m.fresh_record(
                        cursor,
                        timestamp_ms,
                        i,
                        transactions[i].metadata().unwrap(),
                        transactions[i].raw@,
                        now,
                    ),
                })
            }) by {
                if i < n - 1 {
                    state::law_keys_are_exact(EvidenceModel::occurrence_at(cursor, i), last);
                }
            }
            assert forall|key: Seq<u8>| #[trigger] given.contains_key(key) implies exists|i: int|
                0 <= i < n && #[trigger] relayed(transactions, i) && EvidenceModel::occurrence_at(cursor, i).key_bytes() == key by {
                if key != last.key_bytes() {
                    assert(rest.contains_key(key));
                } else {
                    assert(relayed(transactions, n - 1));
                }
            }
            assert forall|key: Seq<u8>| #[trigger] given.contains_key(key) implies given[key].id().key_bytes() == key by {
                if key != last.key_bytes() {
                    assert(rest.contains_key(key));
                } else {
                    match m.occurrence(last) {
                        Some(record) => {
                            assert(m.store.records.contains_key(key));
                        },
                        None => {},
                    }
                }
            }
        } else {
            assert(given == rest);
        }
    }
}

/// The hash index after the first `n` positions of a block were filed.
pub proof fn lemma_fresh_filed(m: EvidenceModel, cursor: BlockCursor, transactions: Seq<Envelope>, n: nat)
    requires
        n <= transactions.len(),
    ensures
        ({
            let after = m.store.write_all(fold::gathered(n, m.fresh_writes(cursor, transactions)));
            &&& after == (StoreModel { hashes: after.hashes, ..m.store })
            &&& forall|key: Seq<u8>| #[trigger] after.hashes.contains_key(key) <==> m.store.hashes.contains_key(key) || exists|i: int|
                0 <= i < n && #[trigger] m.is_fresh(cursor, transactions, i) && key == state::index_key(
                    transactions[i].hash,
                    EvidenceModel::occurrence_at(cursor, i),
                )
        }),
    decreases n,
{
    let part = m.fresh_writes(cursor, transactions);
    if n > 0 {
        let before = (n - 1) as nat;
        lemma_fresh_filed(m, cursor, transactions, before);
        store::lemma_write_all_concat(m.store, fold::gathered(before, part), part(n - 1));
        let mid = m.store.write_all(fold::gathered(before, part));
        let after = m.store.write_all(fold::gathered(n, part));
        if m.is_fresh(cursor, transactions, n - 1) {
            let key = state::index_key(transactions[n - 1].hash, EvidenceModel::occurrence_at(cursor, n - 1));
            let write = WriteModel::Hash { key, present: true };
            assert(part(n - 1) == seq![write]);
            assert(seq![write].drop_last() =~= Seq::empty());
            assert(mid.write_all(seq![write].drop_last()) == mid);
            assert(after == mid.write(write));
            assert forall|k: Seq<u8>| #[trigger] after.hashes.contains_key(k) <==> m.store.hashes.contains_key(k) || exists|i: int|
                0 <= i < n && #[trigger] m.is_fresh(cursor, transactions, i) && k == state::index_key(
                    transactions[i].hash,
                    EvidenceModel::occurrence_at(cursor, i),
                ) by {
                assert(mid.hashes.contains_key(k) || !mid.hashes.contains_key(k));
                if k == key {
                    assert(m.is_fresh(cursor, transactions, n - 1));
                }
            }
        } else {
            assert(part(n - 1) =~= Seq::empty());
            assert(mid.write_all(part(n - 1)) == mid);
            assert forall|k: Seq<u8>| #[trigger] after.hashes.contains_key(k) <==> m.store.hashes.contains_key(k) || exists|i: int|
                0 <= i < n && #[trigger] m.is_fresh(cursor, transactions, i) && k == state::index_key(
                    transactions[i].hash,
                    EvidenceModel::occurrence_at(cursor, i),
                ) by {
                assert(mid.hashes.contains_key(k) || !mid.hashes.contains_key(k));
            }
        }
    }
}

/// What the checks of a preparation leave: positions fit, stored records are of this block, and
/// either the block was prepared before, as it is, or none of its occurrences was.
pub proof fn lemma_preparation_checked(
    m: EvidenceModel,
    cursor: BlockCursor,
    timestamp_ms: u64,
    transactions: Seq<Envelope>,
    usage: DiskUsage,
    now: u64,
)
    requires
        m.consistent(),
        m.prepare(cursor, timestamp_ms, transactions, usage, now) is Ok,
    ensures
        forall|i: int| 0 <= i < transactions.len() && #[trigger] relayed(transactions, i) ==> i <= u32::MAX,
        forall|i: int| 0 <= i < transactions.len() && #[trigger] relayed(transactions, i) ==> {
            let id = EvidenceModel::occurrence_at(cursor, i);
            m.occurrence(id) matches Some(record) ==> {
                &&& record.source.block == cursor
                &&& record.raw == transactions[i].raw@
                &&& record.transaction.hash == transactions[i].hash
            }
        },
{
    let n = transactions.len();
    let block = EvidenceModel::prepared_block(cursor, timestamp_ms, transactions);
    let height = model::height_key(cursor.height);
    assert forall|i: int| 0 <= i < n && #[trigger] relayed(transactions, i) implies i <= u32::MAX && ({
        let id = EvidenceModel::occurrence_at(cursor, i);
        m.occurrence(id) matches Some(record) ==> {
            &&& record.source.block == cursor
            &&& record.raw == transactions[i].raw@
            &&& record.transaction.hash == transactions[i].hash
        }
    }) by {
        fold::lemma_all_pass(n, m.preparation_error(cursor, transactions), i);
        let id = EvidenceModel::occurrence_at(cursor, i);
        if m.occurrence(id) is Some {
            let key = id.key_bytes();
            assert(m.store.records.contains_key(key));
            assert(m.store.records[key].source.block.height > m.progress.source.height);
            assert(m.store.blocks.contains_key(height));
            assert(model::lookup(m.store.blocks, height) == Some(m.store.blocks[height]));
            assert(m.store.blocks[height] == block);
            lemma_prepared_ids(cursor, transactions, n);
            assert(block.occurrences.contains(id));
            let j = choose|j: int| 0 <= j < block.occurrences.len() && block.occurrences[j] == id;
            assert(m.store.records[block.occurrences[j].key_bytes()].transaction.hash == block.hashes[id.source_index as int]);
        }
    }
}

/// Preparing a source block keeps the store consistent. Records that were there keep all but, where
/// they had none, a target occurrence; every relayed transaction of the block now has a record of
/// its exact bytes. A target occurrence that came first is not lost: it stays unmatched or goes to
/// a record, and where all of its hash are read, no record of the hash waits while one is unmatched.
pub proof fn law_preparation_records_every_relayed_transaction(
    m: EvidenceModel,
    cursor: BlockCursor,
    timestamp_ms: u64,
    transactions: Seq<Envelope>,
    usage: DiskUsage,
    now: u64,
)
    requires
        m.consistent(),
        m.prepare(cursor, timestamp_ms, transactions, usage, now) is Ok,
    ensures
        ({
            let after = m.settle(m.prepare(cursor, timestamp_ms, transactions, usage, now)->Ok_0.0);
            &&& after.consistent()
            &&& m.sound() ==> after.sound()
            &&& forall|key: Seq<u8>| #[trigger] m.store.records.contains_key(key) ==> after.store.records.contains_key(key)
                && matching::matched_from(m.store.records[key], after.store.records[key])
            &&& forall|i: int| 0 <= i < transactions.len() && #[trigger] relayed(transactions, i) ==> (
            after.occurrence(EvidenceModel::occurrence_at(cursor, i)) matches Some(record) && {
                &&& record.raw == transactions[i].raw@
                &&& record.source.block == cursor
                &&& record.transaction.hash == transactions[i].hash
            })
            &&& forall|i: int| 0 <= i < transactions.len() && #[trigger] m.is_fresh(cursor, transactions, i) ==> (
            after.occurrence(EvidenceModel::occurrence_at(cursor, i)) matches Some(record) && matching::matched_from(
                m.fresh_record(
                    cursor,
                    timestamp_ms,
                    i,
                    transactions[i].metadata().unwrap(),
                    transactions[i].raw@,
                    now,
                ),
                record,
            ))
            &&& after.store.blocks == m.store.blocks.insert(
                model::height_key(cursor.height),
                EvidenceModel::prepared_block(cursor, timestamp_ms, transactions),
            )
            &&& after.progress.source == m.progress.source
            &&& forall|key: Seq<u8>| #[trigger] after.store.records.contains_key(key) && !m.store.records.contains_key(key) ==> {
                &&& after.store.records[key].rounds == 0
                &&& after.store.records[key].source.block == cursor
            }
            &&& forall|key: Seq<u8>| #[trigger] after.store.records.contains_key(key) ==> (after.store.records[key].target matches Some(target)
                ==> m.store.records.contains_key(key) && m.store.records[key].target == Some(target)
                || m.store.unmatched.contains_key(model::target_key(target)) && m.store.unmatched[model::target_key(target)] == target)
            &&& forall|key: Seq<u8>| #[trigger] m.store.unmatched.contains_key(key) ==> matching::on_record(
                after.store,
                m.store.unmatched[key],
            )
            &&& forall|i: int| 0 <= i < transactions.len() && #[trigger] relayed(transactions, i) && matching::all_read(
                m,
                transactions[i].hash,
            ) ==> matching::joined(after.store.records, after.store.unmatched, transactions[i].hash)
        }),
{
    let n = transactions.len();
    let outcome = m.prepare(cursor, timestamp_ms, transactions, usage, now);
    let commit = outcome->Ok_0.0.unwrap();
    let after = m.settle(Some(commit));
    let block = EvidenceModel::prepared_block(cursor, timestamp_ms, transactions);
    let height = model::height_key(cursor.height);
    let given = m.prepared_records(cursor, timestamp_ms, transactions, now, n);
    let fresh = fold::gathered(n, m.fresh_writes(cursor, transactions));
    let put = WriteModel::Block { key: height, value: Some(block) };
    lemma_preparation_checked(m, cursor, timestamp_ms, transactions, usage, now);
    lemma_prepared_records(m, cursor, timestamp_ms, transactions, now, n);
    lemma_prepared_ids(cursor, transactions, n);
    lemma_fresh_filed(m, cursor, transactions, n);
    let hashed = m.store.write_all(fresh);
    assert(fresh.push(put).drop_last() =~= fresh);
    let at = m.store.write_all(fresh.push(put));
    assert(at == hashed.write(put));
    let rest = m.reconcile_writes(given, Seq::empty());
    assert(commit.writes == fresh.push(put) + rest);
    store::lemma_write_all_concat(m.store, fresh.push(put), rest);
    assert forall|key: Seq<u8>| #[trigger] given.contains_key(key) implies (if m.store.records.contains_key(key) {
        given[key] == m.store.records[key]
    } else {
        given[key].target is None
    }) by {
        let i = choose|i: int| 0 <= i < n && #[trigger] relayed(transactions, i) && EvidenceModel::occurrence_at(cursor, i).key_bytes() == key;
        assert(given.contains_key(EvidenceModel::occurrence_at(cursor, i).key_bytes()));
    }
    assert(matching::given_right(m, given));
    assert(matching::incoming_right(m, Seq::empty()));
    matching::lemma_reconciled(m, at, given, Seq::empty());
    store::lemma_write_all_finite(m.store, commit.writes);
    let written = at.write_all(rest);
    assert(after.store == StoreModel { progress: Some(after.progress), ..written });
    let before = matching::overlaid(m.store.records, given);
    let filed = m.store.unmatched.union_prefer_right(EvidenceModel::by_target_key(Seq::empty()));
    assert(filed =~= m.store.unmatched);
    // Target occurrences that came first.
    assert forall|key: Seq<u8>| #[trigger] m.store.unmatched.contains_key(key) implies matching::on_record(
        after.store,
        m.store.unmatched[key],
    ) by {
        assert(filed.contains_key(key));
        if written.unmatched.contains_key(key) {
            assert(after.store.unmatched.contains_key(key));
        }
    }
    assert forall|i: int| 0 <= i < n && #[trigger] relayed(transactions, i) && matching::all_read(m, transactions[i].hash) implies matching::joined(
        after.store.records,
        after.store.unmatched,
        transactions[i].hash,
    ) by {
        let key = EvidenceModel::occurrence_at(cursor, i).key_bytes();
        assert(given.contains_key(key) && given[key].transaction.hash == transactions[i].hash);
        assert(EvidenceModel::concerns(given, Seq::empty(), transactions[i].hash));
    }
    // Every relayed transaction has a record.
    assert forall|i: int| 0 <= i < n && #[trigger] relayed(transactions, i) implies (
    after.occurrence(EvidenceModel::occurrence_at(cursor, i)) matches Some(record) && {
        &&& record.raw == transactions[i].raw@
        &&& record.source.block == cursor
        &&& record.transaction.hash == transactions[i].hash
    }) by {
        let id = EvidenceModel::occurrence_at(cursor, i);
        assert(given.contains_key(id.key_bytes()));
        assert(before.contains_key(id.key_bytes()));
        assert(written.records.contains_key(id.key_bytes()));
        assert(matching::matched_from(before[id.key_bytes()], written.records[id.key_bytes()]));
    }
    assert forall|i: int| 0 <= i < n && #[trigger] m.is_fresh(cursor, transactions, i) implies (
    after.occurrence(EvidenceModel::occurrence_at(cursor, i)) matches Some(record) && matching::matched_from(
        m.fresh_record(cursor, timestamp_ms, i, transactions[i].metadata().unwrap(), transactions[i].raw@, now),
        record,
    )) by {
        let id = EvidenceModel::occurrence_at(cursor, i);
        assert(relayed(transactions, i));
        assert(given.contains_key(id.key_bytes()));
        assert(before.contains_key(id.key_bytes()));
        assert(written.records.contains_key(id.key_bytes()));
        assert(matching::matched_from(before[id.key_bytes()], written.records[id.key_bytes()]));
    }
    assert forall|key: Seq<u8>| #[trigger] m.store.records.contains_key(key) implies after.store.records.contains_key(key)
        && matching::matched_from(m.store.records[key], after.store.records[key]) by {
        assert(before.contains_key(key));
        assert(written.records.contains_key(key));
        assert(before[key] == m.store.records[key]);
    }
    // A record that was not there is of a relayed position.
    assert forall|key: Seq<u8>| #[trigger] after.store.records.contains_key(key) && !m.store.records.contains_key(key) implies exists|i: int|
        0 <= i < n && #[trigger] m.is_fresh(cursor, transactions, i) && EvidenceModel::occurrence_at(cursor, i).key_bytes() == key by {
        assert(written.records.contains_key(key));
        assert(before.contains_key(key));
        assert(given.contains_key(key));
        let i = choose|i: int| 0 <= i < n && #[trigger] relayed(transactions, i) && EvidenceModel::occurrence_at(cursor, i).key_bytes() == key;
        assert(m.is_fresh(cursor, transactions, i));
    }
    lemma_prepared_hashes(m, after, cursor, transactions);
    lemma_prepared_blocks(m, after, cursor, timestamp_ms, transactions);
    assert(consistency::marks_right(after.store)) by {
        assert(consistency::marks_right(written));
        assert(written.pending == after.store.pending && written.clean == after.store.clean
            && written.recovery == after.store.recovery && written.records == after.store.records);
    }
    assert forall|key: Seq<u8>| #[trigger] after.store.unmatched.contains_key(key) implies after.store.unmatched[key].location.block.height <= after.progress.target.height by {
        assert(written.unmatched.contains_key(key));
        assert(m.store.unmatched.contains_key(key));
    }
    assert forall|key: Seq<u8>| #[trigger] after.store.records.contains_key(key) && !m.store.records.contains_key(key) implies
        after.store.records[key].rounds == 0 && after.store.records[key].source.block == cursor by {
        let i = choose|i: int| 0 <= i < n && #[trigger] m.is_fresh(cursor, transactions, i) && EvidenceModel::occurrence_at(cursor, i).key_bytes() == key;
        assert(relayed(transactions, i));
        assert(before[key] == given[key]);
        assert(matching::matched_from(before[key], written.records[key]));
    }
    assert forall|key: Seq<u8>| #[trigger] after.store.records.contains_key(key) implies (after.store.records[key].target matches Some(target)
        ==> target.location.block.height <= after.progress.target.height && (m.store.records.contains_key(key)
        && m.store.records[key].target == Some(target) || m.store.unmatched.contains_key(model::target_key(target))
        && m.store.unmatched[model::target_key(target)] == target)) by {
        assert(written.records.contains_key(key));
        if after.store.records[key].target is Some {
            let target = after.store.records[key].target.unwrap();
            if m.store.records.contains_key(key) && after.store.records[key].target == m.store.records[key].target {
            } else {
                if !m.store.records.contains_key(key) {
                    assert(given.contains_key(key));
                    assert(before[key].target is None);
                }
                assert(m.store.unmatched.contains_key(model::target_key(target)));
            }
        }
    }
    assert forall|key: Seq<u8>| #[trigger] after.store.records.contains_key(key) && after.store.records[key].source_receipt is Some implies
        after.store.records[key].source.block.height <= after.progress.source_receipts.height by {
        assert(written.records.contains_key(key));
        if !m.store.records.contains_key(key) {
            let i = choose|i: int| 0 <= i < n && #[trigger] m.is_fresh(cursor, transactions, i) && EvidenceModel::occurrence_at(cursor, i).key_bytes() == key;
            assert(relayed(transactions, i));
            assert(before[key] == given[key]);
        }
    }
}

/// The hash index is right after a preparation.
proof fn lemma_prepared_hashes(
    m: EvidenceModel,
    after: EvidenceModel,
    cursor: BlockCursor,
    transactions: Seq<Envelope>,
)
    requires
        m.consistent(),
        consistency::records_filed(after.store.records),
        forall|key: Seq<u8>| #[trigger] m.store.records.contains_key(key) ==> after.store.records.contains_key(key)
            && matching::matched_from(m.store.records[key], after.store.records[key]),
        forall|i: int| 0 <= i < transactions.len() && #[trigger] relayed(transactions, i) ==> (
        after.occurrence(EvidenceModel::occurrence_at(cursor, i)) matches Some(record) && record.transaction.hash
            == transactions[i].hash),
        forall|key: Seq<u8>| #[trigger] after.store.records.contains_key(key) && !m.store.records.contains_key(key) ==> exists|i: int|
            0 <= i < transactions.len() && #[trigger] m.is_fresh(cursor, transactions, i) && EvidenceModel::occurrence_at(cursor, i).key_bytes() == key,
        forall|key: Seq<u8>| #[trigger] after.store.hashes.contains_key(key) <==> m.store.hashes.contains_key(key) || exists|i: int|
            0 <= i < transactions.len() && #[trigger] m.is_fresh(cursor, transactions, i) && key == state::index_key(
                transactions[i].hash,
                EvidenceModel::occurrence_at(cursor, i),
            ),
    ensures
        consistency::hashes_right(after.store.records, after.store.hashes),
{
    let records = after.store.records;
    assert forall|key: Seq<u8>| #[trigger] records.contains_key(key) implies after.store.hashes.contains_key(
        state::index_key(records[key].transaction.hash, records[key].id()),
    ) by {
        if m.store.records.contains_key(key) {
            assert(m.store.hashes.contains_key(state::index_key(records[key].transaction.hash, records[key].id())));
        } else {
            let i = choose|i: int| 0 <= i < transactions.len() && #[trigger] m.is_fresh(cursor, transactions, i) && EvidenceModel::occurrence_at(cursor, i).key_bytes() == key;
            assert(relayed(transactions, i));
            state::law_keys_are_exact(records[key].id(), EvidenceModel::occurrence_at(cursor, i));
        }
    }
    assert forall|key: Seq<u8>| #[trigger] after.store.hashes.contains_key(key) implies consistency::hash_key_right(records, key) by {
        if m.store.hashes.contains_key(key) {
            assert(m.store.records.contains_key(key.skip(32)));
        } else {
            let i = choose|i: int| 0 <= i < transactions.len() && #[trigger] m.is_fresh(cursor, transactions, i) && key == state::index_key(
                transactions[i].hash,
                EvidenceModel::occurrence_at(cursor, i),
            );
            let id = EvidenceModel::occurrence_at(cursor, i);
            assert(relayed(transactions, i));
            state::law_index_keys_are_exact(transactions[i].hash, transactions[i].hash, id, id);
            crate::words::lemma_hash_len(transactions[i].hash);
            state::lemma_key_len(id);
            assert(records.contains_key(id.key_bytes()));
            state::law_keys_are_exact(records[id.key_bytes()].id(), id);
        }
    }
}

/// The stored blocks are right after a preparation.
proof fn lemma_prepared_blocks(
    m: EvidenceModel,
    after: EvidenceModel,
    cursor: BlockCursor,
    timestamp_ms: u64,
    transactions: Seq<Envelope>,
)
    requires
        m.consistent(),
        cursor.height == m.progress.source.height + 1,
        after.progress.source == m.progress.source,
        after.progress.source_receipts == m.progress.source_receipts,
        consistency::records_filed(after.store.records),
        after.store.blocks == m.store.blocks.insert(
            model::height_key(cursor.height),
            EvidenceModel::prepared_block(cursor, timestamp_ms, transactions),
        ),
        forall|i: int| 0 <= i < transactions.len() && #[trigger] relayed(transactions, i) ==> i <= u32::MAX,
        forall|key: Seq<u8>| #[trigger] m.store.records.contains_key(key) ==> after.store.records.contains_key(key)
            && matching::matched_from(m.store.records[key], after.store.records[key]),
        forall|i: int| 0 <= i < transactions.len() && #[trigger] relayed(transactions, i) ==> (
        after.occurrence(EvidenceModel::occurrence_at(cursor, i)) matches Some(record) && record.transaction.hash
            == transactions[i].hash && record.source.block == cursor),
        model::lookup(m.store.blocks, model::height_key(cursor.height)) matches Some(previous) ==> previous
            == EvidenceModel::prepared_block(cursor, timestamp_ms, transactions),
        forall|key: Seq<u8>| #[trigger] after.store.records.contains_key(key) && !m.store.records.contains_key(key) ==> exists|i: int|
            0 <= i < transactions.len() && #[trigger] m.is_fresh(cursor, transactions, i) && EvidenceModel::occurrence_at(cursor, i).key_bytes() == key,
    ensures
        consistency::blocks_right(after.store, after.progress),
        consistency::blocks_kept(after.store, after.progress),
{
    let records = after.store.records;
    let prepared = EvidenceModel::prepared_block(cursor, timestamp_ms, transactions);
    let height = model::height_key(cursor.height);
    lemma_prepared_ids(cursor, transactions, transactions.len());
    assert forall|key: Seq<u8>| #[trigger] after.store.blocks.contains_key(key) implies {
        let block = after.store.blocks[key];
        &&& key == model::height_key(block.cursor.height)
        &&& block.cursor.height > after.progress.source.height || block.cursor.height > after.progress.source_receipts.height
        &&& consistency::block_right(records, block)
    } by {
        let block = after.store.blocks[key];
        if key == height {
            assert forall|j: int| 0 <= j < block.occurrences.len() implies {
                let id = #[trigger] block.occurrences[j];
                &&& id.source_height == block.cursor.height
                &&& id.source_index < block.hashes.len()
                &&& records.contains_key(id.key_bytes())
                &&& records[id.key_bytes()].source.block == block.cursor
                &&& records[id.key_bytes()].transaction.hash == block.hashes[id.source_index as int]
            } by {
                assert(relayed_position(cursor, transactions, transactions.len(), block.occurrences[j]));
                let i = choose|i: int| 0 <= i < transactions.len() && #[trigger] relayed(transactions, i) && block.occurrences[j] == EvidenceModel::occurrence_at(cursor, i);
                assert(relayed(transactions, i));
                assert(block.hashes[i] == transactions[i].hash);
            }
        } else {
            assert(m.store.blocks.contains_key(key));
            assert forall|j: int| 0 <= j < block.occurrences.len() implies {
                let id = #[trigger] block.occurrences[j];
                &&& id.source_height == block.cursor.height
                &&& id.source_index < block.hashes.len()
                &&& records.contains_key(id.key_bytes())
                &&& records[id.key_bytes()].source.block == block.cursor
                &&& records[id.key_bytes()].transaction.hash == block.hashes[id.source_index as int]
            } by {
                assert(m.store.records.contains_key(block.occurrences[j].key_bytes()));
            }
        }
    }
    assert forall|key: Seq<u8>| #[trigger] records.contains_key(key) && records[key].source.block.height
        > after.progress.source.height implies {
        let place = model::height_key(records[key].source.block.height);
        &&& after.store.blocks.contains_key(place)
        &&& after.store.blocks[place].occurrences.contains(records[key].id())
    } by {
        let place = model::height_key(records[key].source.block.height);
        if m.store.records.contains_key(key) {
            assert(m.store.blocks.contains_key(place));
            if place == height {
                assert(model::lookup(m.store.blocks, height) == Some(m.store.blocks[height]));
            }
        } else {
            let i = choose|i: int| 0 <= i < transactions.len() && #[trigger] m.is_fresh(cursor, transactions, i) && EvidenceModel::occurrence_at(cursor, i).key_bytes() == key;
            assert(relayed(transactions, i));
            state::law_keys_are_exact(records[key].id(), EvidenceModel::occurrence_at(cursor, i));
        }
    }
}

/// The source block is stored.
pub open spec fn stored_block(m: EvidenceModel, block: SourceBlockModel) -> bool {
    model::lookup(m.store.blocks, model::height_key(block.cursor.height)) == Some(block)
}

/// A record after receipts were recorded: at most, its source receipt is another.
pub open spec fn received_from(before: OccurrenceModel, after: OccurrenceModel) -> bool {
    after == OccurrenceModel { source_receipt: after.source_receipt, ..before }
}

/// What filing the first `n` receipts of a block does.
proof fn lemma_receipts_filed(
    m: EvidenceModel,
    block: SourceBlockModel,
    receipts: Seq<ReceiptSummary>,
    n: nat,
    part: spec_fn(int) -> Seq<WriteModel>,
)
    requires
        m.consistent(),
        stored_block(m, block),
        n <= block.occurrences.len(),
        part == (|i: int|
            m.record_writes(
                EvidenceModel::with_source_receipt(
                    m.store.records[block.occurrences[i].key_bytes()],
                    receipts[block.occurrences[i].source_index as int],
                ),
            )),
    ensures
        ({
            let after = m.store.write_all(fold::gathered(n, part));
            &&& after == StoreModel {
                records: after.records,
                clean: after.clean,
                pending: after.pending,
                recovery: after.recovery,
                ..m.store
            }
            &&& consistency::records_filed(after.records)
            &&& consistency::marks_right(after)
            &&& forall|key: Seq<u8>| #[trigger] after.records.contains_key(key) <==> m.store.records.contains_key(key)
            &&& forall|key: Seq<u8>| #[trigger] after.records.contains_key(key) ==> {
                &&& received_from(m.store.records[key], after.records[key])
                &&& after.records[key].source_receipt == m.store.records[key].source_receipt
                    || after.records[key].source.block == block.cursor
            }
            &&& forall|i: int| 0 <= i < n ==> after.records[(#[trigger] block.occurrences[i]).key_bytes()]
                == EvidenceModel::with_source_receipt(
                m.store.records[block.occurrences[i].key_bytes()],
                receipts[block.occurrences[i].source_index as int],
            )
        }),
    decreases n,
{
    assert(m.store.blocks.contains_key(model::height_key(block.cursor.height)));
    if n > 0 {
        let before = (n - 1) as nat;
        lemma_receipts_filed(m, block, receipts, before, part);
        store::lemma_write_all_concat(m.store, fold::gathered(before, part), part(n - 1));
        let mid = m.store.write_all(fold::gathered(before, part));
        let id = block.occurrences[n - 1];
        let record = EvidenceModel::with_source_receipt(
            m.store.records[id.key_bytes()],
            receipts[id.source_index as int],
        );
        assert(m.store.records.contains_key(id.key_bytes()));
        assert(record.id().key_bytes() == id.key_bytes());
        consistency::lemma_record_written(mid, m, record);
        consistency::lemma_record_marks(mid, m, record);
        let after = m.store.write_all(fold::gathered(n, part));
        assert forall|i: int| 0 <= i < n implies after.records[(#[trigger] block.occurrences[i]).key_bytes()]
            == EvidenceModel::with_source_receipt(
            m.store.records[block.occurrences[i].key_bytes()],
            receipts[block.occurrences[i].source_index as int],
        ) by {
            state::law_keys_are_exact(block.occurrences[i], id);
        }
    }
}

/// A stored source block can take its receipts: where there is one for each of its hashes, every
/// occurrence has one at its position.
pub proof fn law_a_stored_block_can_take_its_receipts(
    m: EvidenceModel,
    block: SourceBlockModel,
    receipts: Seq<ReceiptSummary>,
)
    requires
        m.consistent(),
        stored_block(m, block),
        receipts.len() == block.hashes.len(),
    ensures
        m.receipts_cover(block, receipts),
        block.cursor.height == m.progress.source_receipts.height + 1 ==> m.observe_source(block, receipts) is Ok,
{
    assert(m.store.blocks.contains_key(model::height_key(block.cursor.height)));
    assert forall|i: int| 0 <= i < block.occurrences.len() implies m.occurrence(#[trigger] block.occurrences[i]) is Some by {
        assert(m.store.records.contains_key(block.occurrences[i].key_bytes()));
    }
}

/// Recording the receipts of a stored source block keeps the store consistent. Every occurrence of
/// the block gets the receipt at its position, which is that of its hash; nothing else of any
/// record changes.
pub proof fn law_receipts_go_to_their_occurrences(
    m: EvidenceModel,
    block: SourceBlockModel,
    receipts: Seq<ReceiptSummary>,
)
    requires
        m.consistent(),
        stored_block(m, block),
        m.observe_source(block, receipts) is Ok,
    ensures
        ({
            let after = m.settle(m.observe_source(block, receipts)->Ok_0.0);
            &&& after.consistent()
            &&& m.sound() ==> after.sound()
            &&& forall|key: Seq<u8>| #[trigger] after.store.records.contains_key(key) <==> m.store.records.contains_key(key)
            &&& forall|key: Seq<u8>| #[trigger] after.store.records.contains_key(key) ==> received_from(m.store.records[key], after.store.records[key])
            &&& forall|i: int| 0 <= i < block.occurrences.len() ==> (after.occurrence(#[trigger] block.occurrences[i]) matches Some(record) && {
                &&& record.source_receipt == Some(receipts[block.occurrences[i].source_index as int])
                &&& record.transaction.hash == block.hashes[block.occurrences[i].source_index as int]
            })
            &&& after.progress.source == m.progress.source
            &&& after.store.blocks == (if m.progress.source.height >= block.cursor.height {
                m.store.blocks.remove(model::height_key(block.cursor.height))
            } else {
                m.store.blocks
            })
        }),
{
    let ids = block.occurrences;
    let part = |i: int|
        m.record_writes(
            EvidenceModel::with_source_receipt(
                m.store.records[ids[i].key_bytes()],
                receipts[ids[i].source_index as int],
            ),
        );
    let enriched = fold::gathered(ids.len(), part);
    lemma_receipts_filed(m, block, receipts, ids.len(), part);
    let filed = m.store.write_all(enriched);
    let commit = m.observe_source(block, receipts)->Ok_0.0.unwrap();
    let after = m.settle(Some(commit));
    let height = model::height_key(block.cursor.height);
    assert(m.store.blocks.contains_key(height));
    if commit.writes != enriched {
        assert(commit.writes.drop_last() =~= enriched);
        assert(m.store.write_all(commit.writes) == filed.write(commit.writes.last()));
    }
    store::lemma_write_all_finite(m.store, commit.writes);
    let records = after.store.records;
    assert(records == filed.records);
    assert(consistency::marks_right(after.store)) by {
        assert(filed.pending == after.store.pending && filed.clean == after.store.clean && filed.recovery
            == after.store.recovery);
    }
    assert forall|key: Seq<u8>| #[trigger] records.contains_key(key) implies after.store.hashes.contains_key(
        state::index_key(records[key].transaction.hash, records[key].id()),
    ) by {
        assert(m.store.records.contains_key(key));
    }
    assert forall|key: Seq<u8>| #[trigger] after.store.hashes.contains_key(key) implies consistency::hash_key_right(records, key) by {
        assert(m.store.hashes.contains_key(key));
        assert(records.contains_key(key.skip(32)));
    }
    assert forall|key: Seq<u8>| #[trigger] after.store.blocks.contains_key(key) implies {
        let other = after.store.blocks[key];
        &&& key == model::height_key(other.cursor.height)
        &&& other.cursor.height > after.progress.source.height || other.cursor.height > after.progress.source_receipts.height
        &&& consistency::block_right(records, other)
    } by {
        let other = after.store.blocks[key];
        assert(m.store.blocks.contains_key(key));
        assert forall|i: int| 0 <= i < other.occurrences.len() implies {
            let id = #[trigger] other.occurrences[i];
            &&& id.source_height == other.cursor.height
            &&& id.source_index < other.hashes.len()
            &&& records.contains_key(id.key_bytes())
            &&& records[id.key_bytes()].source.block == other.cursor
            &&& records[id.key_bytes()].transaction.hash == other.hashes[id.source_index as int]
        } by {
            assert(m.store.records.contains_key(other.occurrences[i].key_bytes()));
            assert(records.contains_key(other.occurrences[i].key_bytes()));
        }
    }
    assert forall|key: Seq<u8>| #[trigger] records.contains_key(key) && records[key].source.block.height
        > after.progress.source.height implies {
        let place = model::height_key(records[key].source.block.height);
        &&& after.store.blocks.contains_key(place)
        &&& after.store.blocks[place].occurrences.contains(records[key].id())
    } by {
        assert(m.store.records.contains_key(key));
        let place = model::height_key(records[key].source.block.height);
        assert(m.store.blocks.contains_key(place));
        if place == height {
            assert(m.store.blocks[place].cursor.height == records[key].source.block.height) by {
                crate::evidence::round_laws::lemma_height_keys(records[key].source.block.height, block.cursor.height);
            }
        }
    }
    assert forall|i: int| 0 <= i < ids.len() implies (after.occurrence(#[trigger] block.occurrences[i]) matches Some(record) && {
        &&& record.source_receipt == Some(receipts[block.occurrences[i].source_index as int])
        &&& record.transaction.hash == block.hashes[block.occurrences[i].source_index as int]
    }) by {
        assert(m.store.records.contains_key(ids[i].key_bytes()));
        assert(records.contains_key(ids[i].key_bytes()));
    }
}

/// A target block ends a stall that was open, with an incident that says so, and starts the clock of
/// target progress anew.
pub proof fn law_a_target_block_ends_a_stall(
    m: EvidenceModel,
    cursor: BlockCursor,
    timestamp_ms: u64,
    observations: Seq<TargetObservation>,
    system_txs: u64,
    failures: Seq<IncidentModel>,
    usage: DiskUsage,
    now: u64,
    threshold_ms: u64,
)
    requires
        m.observe(cursor, timestamp_ms, observations, system_txs, failures, usage, now) is Ok,
    ensures
        ({
            let after = m.settle(
                m.observe(cursor, timestamp_ms, observations, system_txs, failures, usage, now)->Ok_0.0,
            );
            let key = model::incident_key(now, m.progress.incident_sequence as nat + failures.len() + 1);
            &&& !after.progress.stall_open
            &&& after.progress.target == cursor
            &&& after.check(threshold_ms, now) is None
            &&& m.progress.stall_open ==> after.store.incidents.contains_key(key) && after.store.incidents[key]
                == EvidenceModel::resumed(now)
        }),
{
    let commit = m.observe(cursor, timestamp_ms, observations, system_txs, failures, usage, now)->Ok_0.0.unwrap();
    if m.progress.stall_open {
        let sequence = m.progress.incident_sequence as nat;
        let write = EvidenceModel::incident_write(EvidenceModel::resumed(now), sequence + failures.len() + 1);
        assert(commit.writes.last() == write);
        assert(m.store.write_all(commit.writes) == m.store.write_all(commit.writes.drop_last()).write(write));
        reveal_strlit("finality resumed");
    }
}

/// Recording an incident keeps the store consistent and changes no record.
pub proof fn law_incidents_touch_no_record(
    m: EvidenceModel,
    stage: Seq<char>,
    message: Seq<char>,
    history_failure: bool,
    now: u64,
)
    requires
        m.consistent(),
    ensures
        ({
            let after = m.settle(Some(m.report(stage, message, history_failure, now)));
            &&& after.consistent()
            &&& m.sound() ==> after.sound()
            &&& after.store.records == m.store.records
            &&& after.store.unmatched == m.store.unmatched
            &&& after.store.blocks == m.store.blocks
            &&& after.progress.source == m.progress.source
        }),
{
    let commit = m.report(stage, message, history_failure, now);
    lemma_incident_commit(m, commit.writes, commit.progress.unwrap());
}

/// Checking for a stall keeps the store consistent and changes no record. A stall is opened by one
/// incident: while it is open, checking does nothing.
pub proof fn law_a_stall_is_opened_once(m: EvidenceModel, threshold_ms: u64, now: u64, later: u64)
    requires
        m.consistent(),
    ensures
        ({
            let after = m.settle(m.check(threshold_ms, now));
            &&& after.consistent()
            &&& m.sound() ==> after.sound()
            &&& after.store.records == m.store.records
            &&& m.check(threshold_ms, now) is Some ==> after.progress.stall_open && after.check(threshold_ms, later) is None
        }),
{
    if let Some(commit) = m.check(threshold_ms, now) {
        lemma_incident_commit(m, commit.writes, commit.progress.unwrap());
    }
}

/// Checking for a stall changes no column but that of incidents and moves no cursor or archive count.
pub proof fn lemma_a_check_files_an_incident(m: EvidenceModel, threshold_ms: u64, now: u64)
    ensures
        ({
            let after = m.settle(m.check(threshold_ms, now));
            &&& after.store == (StoreModel {
                incidents: after.store.incidents,
                progress: after.store.progress,
                ..m.store
            })
            &&& after.progress == (Progress {
                stall_open: after.progress.stall_open,
                incident_sequence: after.progress.incident_sequence,
                ..m.progress
            })
        }),
{
    if let Some(commit) = m.check(threshold_ms, now) {
        lemma_incidents_alone(m.store, commit.writes);
    }
}

/// A commit of incidents that leaves the cursors keeps the store consistent.
proof fn lemma_incident_commit(m: EvidenceModel, writes: Seq<WriteModel>, progress: Progress)
    requires
        m.consistent(),
        incidents_alone(writes),
        progress.source == m.progress.source,
        progress.source_receipts == m.progress.source_receipts,
        progress.target == m.progress.target,
    ensures
        ({
            let after = m.settle(Some(crate::store::CommitModel { writes, progress: Some(progress) }));
            &&& after.consistent()
            &&& after.store.records == m.store.records
            &&& after.store.unmatched == m.store.unmatched
            &&& after.store.blocks == m.store.blocks
            &&& after.progress.source == m.progress.source
        }),
{
    let after = m.settle(Some(crate::store::CommitModel { writes, progress: Some(progress) }));
    lemma_incidents_alone(m.store, writes);
    store::lemma_write_all_finite(m.store, writes);
    lemma_blocks_stay(m, after);
    assert(consistency::marks_right(after.store)) by {
        assert(m.store.pending == after.store.pending && m.store.clean == after.store.clean
            && m.store.recovery == after.store.recovery && m.store.records == after.store.records);
    }
}

} // verus!
