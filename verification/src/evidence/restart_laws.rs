//! What survives a restart.

use crate::evidence::consistency;
use crate::evidence::intake_laws;
use crate::evidence::matching;
use crate::evidence::model;
use crate::evidence::model::EvidenceModel;
use crate::evidence::round_laws;
use crate::evidence::Progress;
use crate::fold;
use crate::source::Envelope;
use crate::state::{BlockCursor, OccurrenceModel, ReplayIdentity};
use crate::store::{CommitModel, DiskUsage, StoreLimits, StoreMeta, StoreModel, SCHEMA};
use crate::table;
use crate::words::B256;
use vstd::prelude::*;

verus! {

/// A store that is opened for the first time stands at the checkpoint, with nothing on record.
pub proof fn law_a_new_store_stands_at_the_checkpoint(
    identity: ReplayIdentity,
    max_rounds: u32,
    limits: StoreLimits,
    now: u64,
)
    requires
        identity.checkpoint_height < u64::MAX,
        max_rounds > 0,
    ensures
        EvidenceModel::opened(StoreModel::nothing(), identity, max_rounds, limits, now) matches Ok(opened) && {
            &&& opened.healthy()
            &&& opened.progress == EvidenceModel::initial_progress(identity, now)
            &&& opened.store.records == Map::<Seq<u8>, OccurrenceModel>::empty()
        },
{
    let progress = EvidenceModel::initial_progress(identity, now);
    let stamped = StoreModel { meta: Some(StoreMeta { schema: SCHEMA, identity }), ..StoreModel::nothing() };
    assert(stamped.write_all(Seq::empty()) == stamped);
    let opened = EvidenceModel::opened(StoreModel::nothing(), identity, max_rounds, limits, now)->Ok_0;
    assert(opened.store.finite());
}

/// Opening a store again, with any budget and limits, keeps everything that was committed. The
/// clock of target progress starts anew: downtime is not a target stall.
pub proof fn law_reopening_keeps_the_evidence(
    m: EvidenceModel,
    identity: ReplayIdentity,
    max_rounds: u32,
    limits: StoreLimits,
    now: u64,
)
    requires
        m.healthy(),
        m.store.meta == Some(StoreMeta { schema: SCHEMA, identity }),
        identity.checkpoint_height < u64::MAX,
        max_rounds > 0,
    ensures
        EvidenceModel::opened(m.store, identity, max_rounds, limits, now) matches Ok(opened) && {
            &&& opened.healthy()
            &&& opened.store == (StoreModel { progress: Some(opened.progress), ..m.store })
            &&& opened.progress == (Progress { last_target_progress_ms: now, ..m.progress })
            &&& forall|threshold_ms: u64| threshold_ms > 0 ==> (#[trigger] opened.check(threshold_ms, now)) is None
        },
{
    let opened = EvidenceModel::opened(m.store, identity, max_rounds, limits, now)->Ok_0;
    assert(m.store.write_all(Seq::empty()) == m.store);
    intake_laws::lemma_blocks_stay(m, opened);
    assert(consistency::marks_right(opened.store)) by {
        assert(m.store.pending == opened.store.pending && m.store.clean == opened.store.clean
            && m.store.recovery == opened.store.recovery && m.store.records == opened.store.records);
    }
}

/// A store of another replay or another layout is refused.
pub proof fn law_another_replay_is_refused(
    store: StoreModel,
    identity: ReplayIdentity,
    max_rounds: u32,
    limits: StoreLimits,
    now: u64,
)
    requires
        store.meta matches Some(meta) && (meta.schema != SCHEMA || meta.identity != identity),
    ensures
        EvidenceModel::opened(store, identity, max_rounds, limits, now) is Err,
        store.meta->0.schema != SCHEMA ==> EvidenceModel::opened_for_reading(store) is Err,
{
}

/// The journal is complete: commits in its order, applied to the columns from which it started,
/// rebuild the columns. Every operation keeps this.
pub proof fn law_the_journal_rebuilds_the_store(
    image: StoreModel,
    m: EvidenceModel,
    commit: Option<CommitModel>,
)
    requires
        m.store == image.replay(m.journal),
    ensures
        m.settle(commit).store == image.replay(m.settle(commit).journal),
{
    if let Some(commit) = commit {
        assert(m.journal.push(commit).drop_last() =~= m.journal);
    }
}

/// A submission that was open when the process ended is an uncertain delivery: the next round of
/// its block or of recovery closes it, counts the interruption, and if it hands the occurrence out
/// again says so.
pub proof fn law_an_interrupted_submission_is_uncertain(m: EvidenceModel, record: OccurrenceModel, recovery: bool, now: u64)
    requires
        model::sound_record(record),
        record.in_flight,
    ensures
        EvidenceModel::takes_part(record, recovery),
        model::delivery_uncertain(record),
        m.begun(record, now).interrupted_rounds == record.interrupted_rounds + 1,
        m.begun(record, now).in_flight <==> m.may_dispatch(model::interrupted(record)),
        m.begun(record, now).unfinished_round(),
{
}

/// Positions without a part gather nothing.
proof fn lemma_nothing_gathered<B>(n: nat, part: spec_fn(int) -> Seq<B>)
    requires
        forall|i: int| 0 <= i < n ==> (#[trigger] part(i)).len() == 0,
    ensures
        fold::gathered(n, part).len() == 0,
    decreases n,
{
    if n > 0 {
        lemma_nothing_gathered((n - 1) as nat, part);
        assert(part(n - 1).len() == 0);
    }
}

/// The store holds the intent of a source block that the source cursor has not passed: the block, and
/// a record of the exact bytes of each of its relayed transactions.
pub open spec fn holds_intent(
    m: EvidenceModel,
    cursor: BlockCursor,
    timestamp_ms: u64,
    transactions: Seq<Envelope>,
) -> bool {
    &&& cursor.height == m.progress.source.height + 1
    &&& model::lookup(m.store.blocks, model::height_key(cursor.height)) == Some(
        EvidenceModel::prepared_block(cursor, timestamp_ms, transactions),
    )
    &&& forall|i: int| 0 <= i < transactions.len() ==> (#[trigger] transactions[i]).classified() is Ok
    &&& forall|i: int| 0 <= i < transactions.len() && #[trigger] intake_laws::relayed(transactions, i) ==> i <= u32::MAX && (
    m.occurrence(EvidenceModel::occurrence_at(cursor, i)) matches Some(record) && {
        &&& record.raw == transactions[i].raw@
        &&& record.source.block == cursor
        &&& record.transaction.hash == transactions[i].hash
    })
}

/// A preparation leaves the intent of its block.
pub proof fn lemma_preparation_is_held(
    m: EvidenceModel,
    cursor: BlockCursor,
    timestamp_ms: u64,
    transactions: Seq<Envelope>,
    usage: DiskUsage,
    now: u64,
)
    requires
        m.consistent(),
        m.prepare(cursor, timestamp_ms, transactions, usage, now) is Ok,
    ensures
        holds_intent(
            m.settle(m.prepare(cursor, timestamp_ms, transactions, usage, now)->Ok_0.0),
            cursor,
            timestamp_ms,
            transactions,
        ),
{
    intake_laws::law_preparation_records_every_relayed_transaction(m, cursor, timestamp_ms, transactions, usage, now);
    intake_laws::lemma_preparation_checked(m, cursor, timestamp_ms, transactions, usage, now);
    assert forall|i: int| 0 <= i < transactions.len() implies (#[trigger] transactions[i]).classified() is Ok by {
        fold::lemma_all_pass(transactions.len(), m.preparation_error(cursor, transactions), i);
    }
}

/// A block whose intent is held can be prepared, and nothing of it is new.
proof fn lemma_held_prepares(
    again: EvidenceModel,
    cursor: BlockCursor,
    timestamp_ms: u64,
    transactions: Seq<Envelope>,
    usage: DiskUsage,
    now: u64,
)
    requires
        again.consistent(),
        holds_intent(again, cursor, timestamp_ms, transactions),
        again.limits.admits_spec(usage),
        forall|i: int| 0 <= i < transactions.len() ==> again.by_hash_error((#[trigger] transactions[i]).hash) is None,
    ensures
        again.prepare(cursor, timestamp_ms, transactions, usage, now) matches Ok((commit, ids)) && {
            &&& ids == EvidenceModel::prepared_ids(cursor, transactions, transactions.len())
            &&& again.settle(commit).progress == again.progress
        },
{
    let n = transactions.len();
    let check = again.preparation_error(cursor, transactions);
    assert forall|i: int| 0 <= i < n implies (#[trigger] check(i)) is None by {
        assert(transactions[i].classified() is Ok);
        if intake_laws::relayed(transactions, i) {
            assert(again.occurrence(EvidenceModel::occurrence_at(cursor, i)) is Some);
        }
    }
    fold::lemma_no_error(n, check);
    let part = again.fresh_writes(cursor, transactions);
    assert forall|i: int| 0 <= i < n implies (#[trigger] part(i)).len() == 0 by {
        if again.is_fresh(cursor, transactions, i) {
            assert(intake_laws::relayed(transactions, i));
        }
    }
    lemma_nothing_gathered(n, part);
    let given = again.prepared_records(cursor, timestamp_ms, transactions, now, n);
    intake_laws::lemma_prepared_records(again, cursor, timestamp_ms, transactions, now, n);
    let hashes = EvidenceModel::hash_list(given, Seq::empty());
    let errors = |i: int| again.by_hash_error(hashes[i]);
    matching::lemma_hash_list(given, Seq::empty());
    assert forall|i: int| 0 <= i < hashes.len() implies (#[trigger] errors(i)) is None by {
        let map = EvidenceModel::hashes_of(given, Seq::empty());
        let key = table::listed(map)[i];
        assert(table::listed(map).contains(key));
        assert(map.contains_key(key));
        let hash = choose|hash: B256| #[trigger] hash.bytes() == key && EvidenceModel::concerns(given, Seq::empty(), hash);
        assert(hash.bytes() == key);
        crate::words::lemma_hash_injective(hashes[i], hash);
        let k = choose|k: Seq<u8>| #[trigger] given.contains_key(k) && given[k].transaction.hash == hash;
        assert(given.contains_key(k));
        let j = choose|j: int| 0 <= j < n && #[trigger] intake_laws::relayed(transactions, j) && EvidenceModel::occurrence_at(cursor, j).key_bytes() == k;
        let id = EvidenceModel::occurrence_at(cursor, j);
        assert(intake_laws::relayed(transactions, j));
        assert(given[id.key_bytes()].transaction.hash == transactions[j].hash);
    }
    fold::lemma_no_error(hashes.len(), errors);
    assert(again.reconcile_error(given, Seq::empty()) is None);
}

/// Preparing a block again gives the same occurrences and counts none of them anew. It changes no
/// more of a record than to give it a target occurrence, and not even that where no record of its
/// hash waits while one is unmatched.
pub open spec fn prepares_again(
    again: EvidenceModel,
    cursor: BlockCursor,
    timestamp_ms: u64,
    transactions: Seq<Envelope>,
    usage: DiskUsage,
    now: u64,
) -> bool {
    again.prepare(cursor, timestamp_ms, transactions, usage, now) matches Ok((commit, ids)) && {
        &&& ids == EvidenceModel::prepared_ids(cursor, transactions, transactions.len())
        &&& again.settle(commit).progress == again.progress
        &&& again.settle(commit).consistent()
        &&& forall|key: Seq<u8>| #[trigger] again.store.records.contains_key(key) ==> {
            let (before, after) = (again.store.records[key], again.settle(commit).store.records[key]);
            &&& again.settle(commit).store.records.contains_key(key)
            &&& matching::matched_from(before, after)
            &&& matching::joined(again.store.records, again.store.unmatched, before.transaction.hash) ==> after == before
        }
    }
}

/// A block whose intent is held is prepared again, unless one of its hashes has by now too many
/// occurrences to be looked up.
pub proof fn law_a_held_intent_is_prepared_again(
    again: EvidenceModel,
    cursor: BlockCursor,
    timestamp_ms: u64,
    transactions: Seq<Envelope>,
    usage: DiskUsage,
    now: u64,
)
    requires
        again.consistent(),
        holds_intent(again, cursor, timestamp_ms, transactions),
        again.limits.admits_spec(usage),
        forall|i: int| 0 <= i < transactions.len() ==> again.by_hash_error((#[trigger] transactions[i]).hash) is None,
    ensures
        prepares_again(again, cursor, timestamp_ms, transactions, usage, now),
{
    lemma_held_prepares(again, cursor, timestamp_ms, transactions, usage, now);
    intake_laws::law_preparation_records_every_relayed_transaction(
        again,
        cursor,
        timestamp_ms,
        transactions,
        usage,
        now,
    );
    let commit = again.prepare(cursor, timestamp_ms, transactions, usage, now)->Ok_0.0;
    let after = again.settle(commit);
    assert forall|key: Seq<u8>| #[trigger] again.store.records.contains_key(key) && matching::joined(
        again.store.records,
        again.store.unmatched,
        again.store.records[key].transaction.hash,
    ) implies after.store.records[key] == again.store.records[key] by {
        let (old_record, new_record) = (again.store.records[key], after.store.records[key]);
        assert(after.store.records.contains_key(key));
        if old_record.target is None && new_record.target is Some {
            let target = new_record.target.unwrap();
            assert(again.store.unmatched.contains_key(model::target_key(target)));
            assert(again.store.unmatched[model::target_key(target)].transaction_hash == old_record.transaction.hash);
        }
    }
}

/// A block that was prepared can be prepared again, whatever became of its submissions since: while
/// the source cursor has not passed it and its block and the signed bytes of its records stand.
pub proof fn law_preparing_again_gives_the_same_occurrences(
    m: EvidenceModel,
    cursor: BlockCursor,
    timestamp_ms: u64,
    transactions: Seq<Envelope>,
    usage: DiskUsage,
    now: u64,
    again: EvidenceModel,
    later_usage: DiskUsage,
    later: u64,
)
    requires
        m.consistent(),
        m.prepare(cursor, timestamp_ms, transactions, usage, now) is Ok,
        again.consistent(),
        ({
            let after = m.settle(m.prepare(cursor, timestamp_ms, transactions, usage, now)->Ok_0.0);
            &&& again.progress.source == after.progress.source
            &&& model::lookup(again.store.blocks, model::height_key(cursor.height)) == model::lookup(
                after.store.blocks,
                model::height_key(cursor.height),
            )
            &&& forall|key: Seq<u8>| #[trigger] after.store.records.contains_key(key) && after.store.records[key].source.block == cursor
                ==> again.store.records.contains_key(key) && round_laws::same_source(
                again.store.records[key],
                after.store.records[key],
            )
        }),
        again.limits.admits_spec(later_usage),
        forall|i: int| 0 <= i < transactions.len() ==> again.by_hash_error((#[trigger] transactions[i]).hash) is None,
    ensures
        m.prepare(cursor, timestamp_ms, transactions, usage, now)->Ok_0.1 == EvidenceModel::prepared_ids(
            cursor,
            transactions,
            transactions.len(),
        ),
        prepares_again(again, cursor, timestamp_ms, transactions, later_usage, later),
{
    lemma_preparation_is_held(m, cursor, timestamp_ms, transactions, usage, now);
    let after = m.settle(m.prepare(cursor, timestamp_ms, transactions, usage, now)->Ok_0.0);
    assert forall|i: int| 0 <= i < transactions.len() && #[trigger] intake_laws::relayed(transactions, i) implies i <= u32::MAX && (
    again.occurrence(EvidenceModel::occurrence_at(cursor, i)) matches Some(record) && {
        &&& record.raw == transactions[i].raw@
        &&& record.source.block == cursor
        &&& record.transaction.hash == transactions[i].hash
    }) by {
        assert(after.store.records.contains_key(EvidenceModel::occurrence_at(cursor, i).key_bytes()));
    }
    law_a_held_intent_is_prepared_again(again, cursor, timestamp_ms, transactions, later_usage, later);
}

} // verus!
