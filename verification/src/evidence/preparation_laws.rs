//! The preparation of source blocks, told by what a block holds and what goes on record.

use crate::evidence::intake_laws;
use crate::evidence::matching;
use crate::evidence::model;
use crate::evidence::model::EvidenceModel;
use crate::evidence::submission_laws;
use crate::evidence::{EvidenceError, Progress};
use crate::fold;
use crate::source::Envelope;
use crate::state;
use crate::state::{BlockCursor, OccurrenceId};
use crate::store::DiskUsage;
use crate::words::{B256, U256};
use crate::table;
use vstd::prelude::*;

verus! {

/// A transaction that has no record yet gets one that holds its exact bytes and everything that its
/// envelope says of it, where it stands in the source chain, when it was queued and where the target
/// stood; no round, attempt, receipt or outcome is on it yet.
pub proof fn law_a_new_record_says_what_the_envelope_says(
    m: EvidenceModel,
    cursor: BlockCursor,
    timestamp_ms: u64,
    transactions: Seq<Envelope>,
    usage: DiskUsage,
    now: u64,
    i: int,
)
    requires
        m.consistent(),
        m.prepare(cursor, timestamp_ms, transactions, usage, now) is Ok,
        0 <= i < transactions.len(),
        !transactions[i].is_system_tx,
        !transactions[i].has_sub_block_nonce_key_prefix,
        m.occurrence(OccurrenceId { source_height: cursor.height, source_index: i as u32 }) is None,
    ensures
        i <= u32::MAX,
        transactions[i].signer is Some,
        ({
            let id = OccurrenceId { source_height: cursor.height, source_index: i as u32 };
            let filed = m.settle(m.prepare(cursor, timestamp_ms, transactions, usage, now)->Ok_0.0).occurrence(id);
            let record = filed->0;
            let (envelope, metadata) = (transactions[i], record.transaction);
            &&& filed is Some
            &&& record.source.block == cursor
            &&& record.source.index == i
            &&& record.source.timestamp_ms == timestamp_ms
            &&& record.raw == envelope.raw@
            &&& metadata.hash == envelope.hash
            &&& metadata.transaction_type == envelope.transaction_type
            &&& metadata.sender == envelope.signer->0
            &&& metadata.nonce == envelope.nonce
            &&& metadata.nonce_key == (if envelope.nonce_key is Some { envelope.nonce_key->0 } else { U256 { hi: 0, lo: 0 } })
            &&& metadata.expiring == envelope.is_expiring_nonce
            &&& metadata.encoded_length == envelope.raw@.len() as u64
            &&& metadata.gas_limit == envelope.gas_limit
            &&& metadata.valid_before == envelope.valid_before
            &&& metadata.valid_after == envelope.valid_after
            &&& record.source_receipt is None
            &&& record.queued_at_ms == now
            &&& record.last_queued_at_ms == 0
            &&& record.target_at_dispatch == m.progress.target
            &&& record.rounds == 0 && record.completed_round == 0 && record.interrupted_rounds == 0
            &&& !record.in_flight
            &&& record.attempts.len() == 0
        }),
{
    intake_laws::law_preparation_records_every_relayed_transaction(m, cursor, timestamp_ms, transactions, usage, now);
    intake_laws::lemma_preparation_checked(m, cursor, timestamp_ms, transactions, usage, now);
    fold::lemma_all_pass(transactions.len(), m.preparation_error(cursor, transactions), i);
    assert(intake_laws::relayed(transactions, i));
    assert(EvidenceModel::occurrence_at(cursor, i) == (OccurrenceId { source_height: cursor.height, source_index: i as u32 }));
    assert(m.is_fresh(cursor, transactions, i));
}

/// A preparation names the occurrences of its block in the order of the block: one for each transaction
/// that a user signed for the public pool, and none for a system or a subblock transaction.
pub proof fn law_the_occurrences_of_a_block_are_its_public_transactions(
    m: EvidenceModel,
    cursor: BlockCursor,
    timestamp_ms: u64,
    transactions: Seq<Envelope>,
    usage: DiskUsage,
    now: u64,
)
    requires
        m.consistent(),
        m.prepare(cursor, timestamp_ms, transactions, usage, now) is Ok,
    ensures
        ({
            let ids = m.prepare(cursor, timestamp_ms, transactions, usage, now)->Ok_0.1;
            &&& forall|k: int| 0 <= k < ids.len() ==> {
                &&& (#[trigger] ids[k]).source_height == cursor.height
                &&& ids[k].source_index < transactions.len()
                &&& !transactions[ids[k].source_index as int].is_system_tx
                &&& !transactions[ids[k].source_index as int].has_sub_block_nonce_key_prefix
            }
            &&& forall|a: int, b: int| 0 <= a < b < ids.len() ==> (#[trigger] ids[a]).source_index
                < (#[trigger] ids[b]).source_index
            &&& forall|i: int| 0 <= i < transactions.len() && !(#[trigger] transactions[i]).is_system_tx
                && !transactions[i].has_sub_block_nonce_key_prefix ==> ids.contains(
                (OccurrenceId { source_height: cursor.height, source_index: i as u32 }),
            )
        }),
{
    let n = transactions.len();
    let ids = m.prepare(cursor, timestamp_ms, transactions, usage, now)->Ok_0.1;
    intake_laws::lemma_preparation_checked(m, cursor, timestamp_ms, transactions, usage, now);
    intake_laws::lemma_prepared_ids(cursor, transactions, n);
    lemma_ids_ascend(cursor, transactions, n);
    assert forall|k: int| 0 <= k < ids.len() implies {
        &&& (#[trigger] ids[k]).source_height == cursor.height
        &&& ids[k].source_index < transactions.len()
        &&& !transactions[ids[k].source_index as int].is_system_tx
        &&& !transactions[ids[k].source_index as int].has_sub_block_nonce_key_prefix
    } by {
        assert(intake_laws::relayed_position(cursor, transactions, n, ids[k]));
        let i = choose|i: int|
            0 <= i < n && #[trigger] intake_laws::relayed(transactions, i) && ids[k] == EvidenceModel::occurrence_at(cursor, i);
        assert(intake_laws::relayed(transactions, i));
    }
    assert forall|i: int| 0 <= i < transactions.len() && !(#[trigger] transactions[i]).is_system_tx
        && !transactions[i].has_sub_block_nonce_key_prefix implies ids.contains(
        (OccurrenceId { source_height: cursor.height, source_index: i as u32 }),
    ) by {
        fold::lemma_all_pass(n, m.preparation_error(cursor, transactions), i);
        assert(intake_laws::relayed(transactions, i));
    }
}

proof fn lemma_ids_ascend(cursor: BlockCursor, transactions: Seq<Envelope>, n: nat)
    requires
        n <= transactions.len(),
        forall|i: int| 0 <= i < transactions.len() && #[trigger] intake_laws::relayed(transactions, i) ==> i <= u32::MAX,
    ensures
        ({
            let ids = EvidenceModel::prepared_ids(cursor, transactions, n);
            &&& forall|a: int, b: int| 0 <= a < b < ids.len() ==> (#[trigger] ids[a]).source_index
                < (#[trigger] ids[b]).source_index
            &&& forall|a: int| 0 <= a < ids.len() ==> (#[trigger] ids[a]).source_index < n
        }),
    decreases n,
{
    if n > 0 {
        lemma_ids_ascend(cursor, transactions, (n - 1) as nat);
        assert(intake_laws::relayed(transactions, n - 1) ==> n - 1 <= u32::MAX);
        let rest = EvidenceModel::prepared_ids(cursor, transactions, (n - 1) as nat);
        let ids = EvidenceModel::prepared_ids(cursor, transactions, n);
        assert forall|a: int| 0 <= a < ids.len() implies (#[trigger] ids[a]).source_index < n by {
            if a < rest.len() {
                assert(ids[a] == rest[a]);
            }
        }
        assert forall|a: int, b: int| 0 <= a < b < ids.len() implies (#[trigger] ids[a]).source_index
            < (#[trigger] ids[b]).source_index by {
            assert(ids[a] == rest[a]);
            if b < rest.len() {
                assert(ids[b] == rest[b]);
            }
        }
    }
}

/// A preparation stores the block: its cursor and time, the hash of every transaction in it at its
/// position, and the occurrences that it names. No other block changes.
pub proof fn law_a_prepared_block_is_stored_whole(
    m: EvidenceModel,
    cursor: BlockCursor,
    timestamp_ms: u64,
    transactions: Seq<Envelope>,
    usage: DiskUsage,
    now: u64,
)
    requires
        m.consistent(),
        m.prepare(cursor, timestamp_ms, transactions, usage, now) is Ok,
    ensures
        ({
            let (commit, ids) = m.prepare(cursor, timestamp_ms, transactions, usage, now)->Ok_0;
            let blocks = m.settle(commit).store.blocks;
            let block = blocks[model::height_key(cursor.height)];
            &&& blocks.contains_key(model::height_key(cursor.height))
            &&& block.cursor == cursor
            &&& block.timestamp_ms == timestamp_ms
            &&& block.occurrences == ids
            &&& block.hashes.len() == transactions.len()
            &&& forall|i: int| 0 <= i < transactions.len() ==> #[trigger] block.hashes[i] == transactions[i].hash
            &&& forall|key: Seq<u8>| key != model::height_key(cursor.height) ==> {
                &&& (#[trigger] blocks.contains_key(key)) == m.store.blocks.contains_key(key)
                &&& blocks[key] == m.store.blocks[key]
            }
        }),
{
    intake_laws::law_preparation_records_every_relayed_transaction(m, cursor, timestamp_ms, transactions, usage, now);
}

/// The transactions of the source are counted once: a preparation counts the occurrences of its block
/// that had no record, and moves nothing else of the progress.
pub proof fn law_a_transaction_is_counted_with_its_first_record(
    m: EvidenceModel,
    cursor: BlockCursor,
    timestamp_ms: u64,
    transactions: Seq<Envelope>,
    usage: DiskUsage,
    now: u64,
)
    requires
        m.prepare(cursor, timestamp_ms, transactions, usage, now) is Ok,
        m.progress.source_transactions + transactions.len() <= u64::MAX,
    ensures
        ({
            let (commit, ids) = m.prepare(cursor, timestamp_ms, transactions, usage, now)->Ok_0;
            let after = m.settle(commit).progress;
            &&& after.source_transactions == m.progress.source_transactions + ids.filter(
                |id: OccurrenceId| m.occurrence(id) is None,
            ).len()
            &&& after == (Progress { source_transactions: after.source_transactions, ..m.progress })
        }),
{
    lemma_fresh_counted(m, cursor, transactions, transactions.len());
}

proof fn lemma_fresh_counted(m: EvidenceModel, cursor: BlockCursor, transactions: Seq<Envelope>, n: nat)
    requires
        n <= transactions.len(),
    ensures
        fold::gathered(n, m.fresh_writes(cursor, transactions)).len() == EvidenceModel::prepared_ids(
            cursor,
            transactions,
            n,
        ).filter(|id: OccurrenceId| m.occurrence(id) is None).len(),
        fold::gathered(n, m.fresh_writes(cursor, transactions)).len() <= n,
    decreases n,
{
    let new = |id: OccurrenceId| m.occurrence(id) is None;
    reveal(Seq::filter);
    if n == 0 {
        assert(EvidenceModel::prepared_ids(cursor, transactions, 0) =~= Seq::empty());
    } else {
        lemma_fresh_counted(m, cursor, transactions, (n - 1) as nat);
        let rest = EvidenceModel::prepared_ids(cursor, transactions, (n - 1) as nat);
        let ids = EvidenceModel::prepared_ids(cursor, transactions, n);
        if ids != rest {
            assert(ids.drop_last() =~= rest);
            assert(ids.last() == EvidenceModel::occurrence_at(cursor, n - 1));
        }
    }
}

/// What a preparation needs: the block that follows the cursor, room on the disk, a known signer of
/// every transaction that the protocol did not make itself, and nothing on record that contradicts it,
/// that is no record of another block or of other bytes at one of its positions, and no block stored
/// at its height with another hash, time or content.
pub proof fn law_a_preparation_agrees_with_what_is_on_record(
    m: EvidenceModel,
    cursor: BlockCursor,
    timestamp_ms: u64,
    transactions: Seq<Envelope>,
    usage: DiskUsage,
    now: u64,
)
    requires
        m.prepare(cursor, timestamp_ms, transactions, usage, now) is Ok,
    ensures
        cursor.height == m.progress.source.height + 1,
        usage.used_bytes <= m.limits.max_bytes,
        usage.free_bytes >= m.limits.min_free_bytes,
        forall|i: int| 0 <= i < transactions.len() && !(#[trigger] transactions[i]).is_system_tx
            ==> transactions[i].signer is Some,
        forall|i: int| 0 <= i < transactions.len() && !(#[trigger] transactions[i]).is_system_tx
            && !transactions[i].has_sub_block_nonce_key_prefix ==> i <= u32::MAX && ({
            let stored = m.occurrence(OccurrenceId { source_height: cursor.height, source_index: i as u32 });
            stored is Some ==> stored->0.source.block == cursor && stored->0.raw == transactions[i].raw@
        }),
        m.store.blocks.contains_key(model::height_key(cursor.height)) ==> ({
            let stored = m.store.blocks[model::height_key(cursor.height)];
            &&& stored.cursor == cursor
            &&& stored.timestamp_ms == timestamp_ms
            &&& stored.occurrences == m.prepare(cursor, timestamp_ms, transactions, usage, now)->Ok_0.1
            &&& stored.hashes.len() == transactions.len()
            &&& forall|i: int| 0 <= i < transactions.len() ==> #[trigger] stored.hashes[i] == transactions[i].hash
        }),
{
    let check = m.preparation_error(cursor, transactions);
    assert forall|i: int| 0 <= i < transactions.len() && !(#[trigger] transactions[i]).is_system_tx implies transactions[i].signer is Some by {
        fold::lemma_all_pass(transactions.len(), check, i);
    }
    assert forall|i: int| 0 <= i < transactions.len() && !(#[trigger] transactions[i]).is_system_tx
        && !transactions[i].has_sub_block_nonce_key_prefix implies i <= u32::MAX && ({
        let stored = m.occurrence(OccurrenceId { source_height: cursor.height, source_index: i as u32 });
        stored is Some ==> stored->0.source.block == cursor && stored->0.raw == transactions[i].raw@
    }) by {
        fold::lemma_all_pass(transactions.len(), check, i);
        assert(EvidenceModel::occurrence_at(cursor, i) == (OccurrenceId { source_height: cursor.height, source_index: i as u32 }));
    }
    assert(model::lookup(m.store.blocks, model::height_key(cursor.height)) matches Some(previous) ==> previous
        == EvidenceModel::prepared_block(cursor, timestamp_ms, transactions));
}

/// Nothing else keeps a block from being prepared, but for a hash of it with too many occurrences to be
/// looked up.
pub proof fn law_a_block_that_agrees_is_prepared(
    m: EvidenceModel,
    cursor: BlockCursor,
    timestamp_ms: u64,
    transactions: Seq<Envelope>,
    usage: DiskUsage,
    now: u64,
)
    requires
        m.consistent(),
        cursor.height == m.progress.source.height + 1,
        usage.used_bytes <= m.limits.max_bytes,
        usage.free_bytes >= m.limits.min_free_bytes,
        forall|i: int| 0 <= i < transactions.len() && !(#[trigger] transactions[i]).is_system_tx
            ==> transactions[i].signer is Some,
        transactions.len() <= u32::MAX,
        !m.store.blocks.contains_key(model::height_key(cursor.height)),
        forall|i: int| 0 <= i < transactions.len() ==> m.by_hash_error((#[trigger] transactions[i]).hash) is None,
    ensures
        m.prepare(cursor, timestamp_ms, transactions, usage, now) is Ok,
{
    let n = transactions.len();
    let check = m.preparation_error(cursor, transactions);
    assert forall|i: int| 0 <= i < n implies (#[trigger] check(i)) is None by {
        let envelope = transactions[i];
        assert(!envelope.is_system_tx ==> envelope.signer is Some);
        let id = EvidenceModel::occurrence_at(cursor, i);
        if m.occurrence(id) is Some {
            let record = m.store.records[id.key_bytes()];
            assert(m.store.records.contains_key(id.key_bytes()));
            state::law_keys_are_exact(record.id(), id);
            assert(record.source.block.height > m.progress.source.height);
        }
    }
    fold::lemma_no_error(n, check);
    let given = m.prepared_records(cursor, timestamp_ms, transactions, now, n);
    intake_laws::lemma_prepared_records(m, cursor, timestamp_ms, transactions, now, n);
    let hashes = EvidenceModel::hash_list(given, Seq::empty());
    let errors = |i: int| m.by_hash_error(hashes[i]);
    matching::lemma_hash_list(given, Seq::empty());
    assert forall|i: int| 0 <= i < hashes.len() implies (#[trigger] errors(i)) is None by {
        let map = EvidenceModel::hashes_of(given, Seq::empty());
        let key = table::listed(map)[i];
        assert(table::listed(map).contains(key));
        assert(map.contains_key(key));
        let hash = choose|hash: B256| #[trigger] hash.bytes() == key && EvidenceModel::concerns(given, Seq::empty(), hash);
        assert(hash.bytes() == key);
        crate::words::lemma_hash_injective(hashes[i], hash);
        let k = choose|k: Seq<u8>| #[trigger] given.contains_key(k) && given[k].transaction.hash == hash;
        assert(given.contains_key(k));
        let j = choose|j: int|
            0 <= j < n && #[trigger] intake_laws::relayed(transactions, j) && EvidenceModel::occurrence_at(cursor, j).key_bytes() == k;
        let id = EvidenceModel::occurrence_at(cursor, j);
        assert(intake_laws::relayed(transactions, j));
        if m.occurrence(id) is Some {
            let record = m.store.records[id.key_bytes()];
            assert(m.store.records.contains_key(id.key_bytes()));
            state::law_keys_are_exact(record.id(), id);
            assert(record.source.block.height > m.progress.source.height);
        }
        assert(given[id.key_bytes()].transaction.hash == transactions[j].hash);
    }
    fold::lemma_no_error(hashes.len(), errors);
}

/// A refusal says what is wrong.
pub proof fn law_a_refused_preparation_is_called_by_its_fault(
    m: EvidenceModel,
    cursor: BlockCursor,
    timestamp_ms: u64,
    transactions: Seq<Envelope>,
    usage: DiskUsage,
    now: u64,
)
    requires
        m.prepare(cursor, timestamp_ms, transactions, usage, now) is Err,
    ensures
        ({
            let error = m.prepare(cursor, timestamp_ms, transactions, usage, now)->Err_0;
            let full = usage.used_bytes > m.limits.max_bytes || usage.free_bytes < m.limits.min_free_bytes;
            &&& error == EvidenceError::SourceNotContiguous <==> cursor.height != m.progress.source.height + 1
            &&& error == EvidenceError::DiskLimit <==> cursor.height == m.progress.source.height + 1 && full
            &&& error == EvidenceError::UnknownSigner ==> exists|i: int|
                0 <= i < transactions.len() && !(#[trigger] transactions[i]).is_system_tx && transactions[i].signer is None
            &&& error == EvidenceError::SourceOccurrenceChanged ==> exists|i: int|
                0 <= i < transactions.len() && ({
                    let stored = m.occurrence(OccurrenceId { source_height: cursor.height, source_index: i as u32 });
                    stored is Some && (stored->0.source.block != cursor || stored->0.raw != (#[trigger] transactions[i]).raw@)
                })
            &&& error == EvidenceError::PreparedBlockChanged ==> m.store.blocks.contains_key(model::height_key(cursor.height))
        }),
{
    let n = transactions.len();
    let check = m.preparation_error(cursor, transactions);
    if fold::first_error(n, check) is Some {
        let i = submission_laws::lemma_error_from(n, check);
        assert(EvidenceModel::occurrence_at(cursor, i) == (OccurrenceId { source_height: cursor.height, source_index: i as u32 }));
        assert(transactions[i].raw@ == transactions[i].raw@);
    } else if m.reconcile_error(m.prepared_records(cursor, timestamp_ms, transactions, now, n), Seq::empty()) is Some {
        lemma_matching_errors(m, m.prepared_records(cursor, timestamp_ms, transactions, now, n), Seq::empty());
    }
}

/// A matching is refused for a repeated target occurrence or for a hash that cannot be looked up.
pub proof fn lemma_matching_errors(
    m: EvidenceModel,
    records: Map<Seq<u8>, crate::state::OccurrenceModel>,
    targets: Seq<crate::state::TargetObservation>,
)
    requires
        m.reconcile_error(records, targets) is Some,
    ensures
        ({
            let error = m.reconcile_error(records, targets)->0;
            ||| error == EvidenceError::DuplicateTargetLocation && exists|i: int, j: int|
                0 <= i < j < targets.len() && model::target_key(#[trigger] targets[i]) == model::target_key(
                    #[trigger] targets[j],
                )
            ||| error == EvidenceError::TooManyOccurrences
            ||| error == EvidenceError::InvalidHashIndex
            ||| error == EvidenceError::MissingIndexedOccurrence
        }),
{
    let repeated = EvidenceModel::repeated_target(targets);
    if fold::first_error(targets.len(), repeated) is Some {
        let j = submission_laws::lemma_error_from(targets.len(), repeated);
        let i = choose|i: int| 0 <= i < j && model::target_key(#[trigger] targets[i]) == model::target_key(targets[j]);
        assert(model::target_key(targets[i]) == model::target_key(targets[j]));
    } else {
        let hashes = EvidenceModel::hash_list(records, targets);
        let check = |i: int| m.by_hash_error(hashes[i]);
        let i = submission_laws::lemma_error_from(hashes.len(), check);
        let keys = m.hash_keys(hashes[i]);
        if keys.len() <= model::MAX_REPEATS {
            let k = submission_laws::lemma_error_from(keys.len(), m.hash_key_error(keys));
        }
    }
}

} // verus!
