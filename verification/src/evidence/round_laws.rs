//! What submission rounds keep.

use crate::bytes;
use crate::evidence::consistency;
use crate::evidence::model;
use crate::evidence::model::{CompletedModel, DispatchModel, EvidenceModel};
use crate::evidence::retention_laws;
use crate::evidence::Progress;
use crate::fold;
use crate::state;
use crate::state::{BlockCursor, Disposition, OccurrenceId, OccurrenceModel};
use crate::store;
use crate::store::{StoreModel, WriteModel};
use crate::table;
use crate::words::B256;
use vstd::prelude::*;

verus! {

// Submission rounds.

/// Both records are about the same signed bytes of the same occurrence.
pub open spec fn same_source(a: OccurrenceModel, b: OccurrenceModel) -> bool {
    &&& a.source == b.source
    &&& a.transaction == b.transaction
    &&& a.raw == b.raw
    &&& a.queued_at_ms == b.queued_at_ms
}

/// Both records show the same of both chains.
pub open spec fn same_observations(a: OccurrenceModel, b: OccurrenceModel) -> bool {
    &&& a.source_receipt == b.source_receipt
    &&& a.target == b.target
}

/// Nothing but the submission state of records differs, and their indexes follow it.
pub open spec fn rounds_only(before: StoreModel, after: StoreModel) -> bool {
    &&& after.meta == before.meta
    &&& after.progress == before.progress
    &&& after.hashes == before.hashes
    &&& after.unmatched == before.unmatched
    &&& after.unmatched_by_height == before.unmatched_by_height
    &&& after.blocks == before.blocks
    &&& after.incidents == before.incidents
    &&& forall|key: Seq<u8>| #[trigger] after.records.contains_key(key) <==> before.records.contains_key(key)
    &&& forall|key: Seq<u8>| #[trigger] after.records.contains_key(key) ==> same_source(
        after.records[key],
        before.records[key],
    ) && same_observations(after.records[key], before.records[key])
    &&& consistency::records_filed(after.records)
    &&& consistency::marks_right(after)
}

/// A part of a batch that files a record anew with another submission state, or nothing.
spec fn reruns(m: EvidenceModel, part: Seq<WriteModel>, record: OccurrenceModel) -> bool {
    &&& part == m.record_writes(record)
    &&& m.store.records.contains_key(record.id().key_bytes())
    &&& same_source(record, m.store.records[record.id().key_bytes()])
    &&& same_observations(record, m.store.records[record.id().key_bytes()])
}

proof fn lemma_rounds_only(m: EvidenceModel, n: nat, part: spec_fn(int) -> Seq<WriteModel>)
    requires
        m.consistent(),
        forall|i: int|
            0 <= i < n ==> (#[trigger] part(i)).len() == 0 || exists|record: OccurrenceModel|
                #[trigger] reruns(m, part(i), record),
    ensures
        rounds_only(m.store, m.store.write_all(fold::gathered(n, part))),
{
    let holds = |at: StoreModel| rounds_only(m.store, at);
    assert forall|i: int, at: StoreModel|
        0 <= i < n && #[trigger] holds(at) implies holds(#[trigger] at.write_all(part(i))) by {
        if part(i).len() == 0 {
            assert(at.write_all(part(i)) == at);
        } else {
            let record = choose|record: OccurrenceModel| #[trigger] reruns(m, part(i), record);
            consistency::lemma_record_written(at, m, record);
            consistency::lemma_record_marks(at, m, record);
        }
    }
    consistency::lemma_kept(m.store, n, part, holds);
}

/// A store that differs from a consistent one in submission state alone is consistent.
proof fn lemma_rounds_consistent(m: EvidenceModel, after: EvidenceModel)
    requires
        m.consistent(),
        after.store.finite(),
        rounds_only(m.store, StoreModel { progress: m.store.progress, blocks: m.store.blocks, ..after.store }),
        after.store.progress == Some(after.progress),
        after.progress.target == m.progress.target,
        after.progress.source_receipts == m.progress.source_receipts,
        after.store.blocks == m.store.blocks && after.progress.source == m.progress.source || (
        consistency::blocks_right(after.store, after.progress) && consistency::blocks_kept(
            after.store,
            after.progress,
        )),
    ensures
        after.consistent(),
{
    let records = after.store.records;
    assert forall|key: Seq<u8>| #[trigger] records.contains_key(key) implies after.store.hashes.contains_key(
        state::index_key(records[key].transaction.hash, records[key].id()),
    ) by {
        assert(m.store.records.contains_key(key));
    }
    assert forall|key: Seq<u8>| #[trigger] after.store.hashes.contains_key(key) implies consistency::hash_key_right(records, key) by {
        assert(m.store.hashes.contains_key(key));
        assert(records.contains_key(key.skip(32)));
    }
    if after.store.blocks == m.store.blocks && after.progress.source == m.progress.source {
        assert forall|key: Seq<u8>| #[trigger] after.store.blocks.contains_key(key) implies consistency::block_right(records, after.store.blocks[key]) by {
            let block = after.store.blocks[key];
            assert(m.store.blocks.contains_key(key));
            assert forall|i: int| 0 <= i < block.occurrences.len() implies {
                let id = #[trigger] block.occurrences[i];
                &&& id.source_height == block.cursor.height
                &&& id.source_index < block.hashes.len()
                &&& records.contains_key(id.key_bytes())
                &&& records[id.key_bytes()].source.block == block.cursor
                &&& records[id.key_bytes()].transaction.hash == block.hashes[id.source_index as int]
            } by {
                assert(m.store.records.contains_key(block.occurrences[i].key_bytes()));
                assert(records.contains_key(block.occurrences[i].key_bytes()));
            }
        }
    }
    let at = StoreModel { progress: m.store.progress, blocks: m.store.blocks, ..after.store };
    assert(consistency::marks_right(at));
    assert(at.pending == after.store.pending && at.clean == after.store.clean && at.recovery
        == after.store.recovery && at.records == records);
}

/// Beginning a round keeps the store consistent and changes nothing but submission state: signed
/// bytes, receipts and target occurrences stay as they are.
pub proof fn law_a_round_changes_submission_state_only(
    m: EvidenceModel,
    ids: Seq<OccurrenceId>,
    recovery: bool,
    now: u64,
)
    requires
        m.consistent(),
        m.begin(ids, recovery, now) is Ok,
    ensures
        m.settle(m.begin(ids, recovery, now)->Ok_0.0).consistent(),
        rounds_only(m.store, m.settle(m.begin(ids, recovery, now)->Ok_0.0).store),
{
    let part = |i: int| m.round_writes(ids[i], recovery, now);
    assert forall|i: int| 0 <= i < ids.len() implies (#[trigger] part(i)).len() == 0 || exists|record: OccurrenceModel|
        #[trigger] reruns(m, part(i), record) by {
        assert(m.occurrence(ids[i]) is Some);
        let stored = m.store.records[ids[i].key_bytes()];
        assert(stored.id().key_bytes() == ids[i].key_bytes());
        if EvidenceModel::takes_part(stored, recovery) {
            assert(reruns(m, part(i), m.begun(stored, now)));
        }
    }
    lemma_rounds_only(m, ids.len(), part);
    let commit = m.begin(ids, recovery, now)->Ok_0.0;
    let after = m.settle(commit);
    assert(after.store == m.store.write_all(fold::gathered(ids.len(), part)));
    store::lemma_write_all_finite(m.store, fold::gathered(ids.len(), part));
    lemma_rounds_consistent(m, after);
}

/// What the columns hold after the first `n` outcomes of a round were filed.
pub proof fn lemma_outcomes_filed(m: EvidenceModel, completed: Seq<CompletedModel>, n: nat, part: spec_fn(int) -> Seq<WriteModel>)
    requires
        m.consistent(),
        n <= completed.len(),
        part == (|i: int| m.record_writes(m.outcome_record(completed[i]))),
        forall|i: int| 0 <= i < n ==> m.occurrence((#[trigger] completed[i]).id) is Some,
        forall|i: int, j: int| 0 <= i < j < n ==> (#[trigger] completed[i]).id != (#[trigger] completed[j]).id,
    ensures
        ({
            let after = m.store.write_all(fold::gathered(n, part));
            &&& forall|i: int| 0 <= i < n ==> after.records.contains_key((#[trigger] completed[i]).id.key_bytes())
                && after.records[completed[i].id.key_bytes()] == m.outcome_record(completed[i])
            &&& forall|id: OccurrenceId| (forall|i: int| 0 <= i < n ==> (#[trigger] completed[i]).id != id)
                ==> #[trigger] after.records.contains_key(id.key_bytes()) == m.store.records.contains_key(id.key_bytes())
                && after.records[id.key_bytes()] == m.store.records[id.key_bytes()]
        }),
    decreases n,
{
    if n > 0 {
        let before = (n - 1) as nat;
        lemma_outcomes_filed(m, completed, before, part);
        let at = m.store.write_all(fold::gathered(before, part));
        let after = m.store.write_all(fold::gathered(n, part));
        store::lemma_write_all_concat(m.store, fold::gathered(before, part), part(n - 1));
        let last = completed[n - 1];
        let record = m.outcome_record(last);
        assert(m.occurrence(last.id) is Some);
        assert(record.id().key_bytes() == last.id.key_bytes());
        consistency::lemma_record_written(at, m, record);
        assert forall|i: int| 0 <= i < n implies after.records.contains_key((#[trigger] completed[i]).id.key_bytes())
            && after.records[completed[i].id.key_bytes()] == m.outcome_record(completed[i]) by {
            if i < n - 1 {
                state::law_keys_are_exact(completed[i].id, last.id);
            }
        }
        assert forall|id: OccurrenceId| (forall|i: int| 0 <= i < n ==> (#[trigger] completed[i]).id != id) implies
            #[trigger] after.records.contains_key(id.key_bytes()) == m.store.records.contains_key(id.key_bytes())
            && after.records[id.key_bytes()] == m.store.records[id.key_bytes()] by {
            assert(completed[n - 1].id != id);
            state::law_keys_are_exact(id, last.id);
            assert(at.records.contains_key(id.key_bytes()) == m.store.records.contains_key(id.key_bytes()));
        }
    }
}

/// The outcomes that a commit takes are of distinct open submissions.
pub proof fn lemma_outcomes_checked(m: EvidenceModel, completed: Seq<CompletedModel>)
    requires
        fold::first_error(completed.len(), m.completion_error(completed)) is None,
    ensures
        forall|i: int| 0 <= i < completed.len() ==> {
            &&& m.occurrence((#[trigger] completed[i]).id) is Some
            &&& m.store.records[completed[i].id.key_bytes()].in_flight
            &&& completed[i].attempts.len() > 0
            &&& m.store.records[completed[i].id.key_bytes()].attempts.len() + completed[i].attempts.len() <= model::MAX_ATTEMPTS
        },
        forall|i: int, j: int| 0 <= i < j < completed.len() ==> (#[trigger] completed[i]).id != (#[trigger] completed[j]).id,
{
    let check = m.completion_error(completed);
    assert forall|i: int| 0 <= i < completed.len() implies {
        &&& m.occurrence((#[trigger] completed[i]).id) is Some
        &&& m.store.records[completed[i].id.key_bytes()].in_flight
        &&& completed[i].attempts.len() > 0
        &&& m.store.records[completed[i].id.key_bytes()].attempts.len() + completed[i].attempts.len() <= model::MAX_ATTEMPTS
    } by {
        fold::lemma_all_pass(completed.len(), check, i);
    }
    assert forall|i: int, j: int| 0 <= i < j < completed.len() implies (#[trigger] completed[i]).id != (#[trigger] completed[j]).id by {
        fold::lemma_all_pass(completed.len(), check, j);
    }
}

/// Committing outcomes keeps the store consistent. Signed bytes and what both chains have shown in
/// the meantime stay as they are, no round is begun or forgotten, and attempts are only added. The
/// source cursor moves to the block that is finished, and else not at all.
pub proof fn law_completion_keeps_observations(
    m: EvidenceModel,
    completed: Seq<CompletedModel>,
    source: Option<BlockCursor>,
)
    requires
        m.consistent(),
        m.complete(completed, source) is Ok,
    ensures
        ({
            let after = m.settle(m.complete(completed, source)->Ok_0.0);
            &&& after.consistent()
            &&& forall|key: Seq<u8>| #[trigger] after.store.records.contains_key(key) <==> m.store.records.contains_key(key)
            &&& forall|key: Seq<u8>| #[trigger] after.store.records.contains_key(key) ==> {
                &&& same_source(after.store.records[key], m.store.records[key])
                &&& same_observations(after.store.records[key], m.store.records[key])
                &&& m.store.records[key].attempts.is_prefix_of(after.store.records[key].attempts)
                &&& after.store.records[key].rounds == m.store.records[key].rounds
            }
            &&& after.store.hashes == m.store.hashes
            &&& after.store.unmatched == m.store.unmatched
            &&& after.store.incidents == m.store.incidents
            &&& after.store.meta == m.store.meta
            &&& source is None ==> after.store.blocks == m.store.blocks && after.progress.source == m.progress.source
            &&& source matches Some(cursor) ==> after.progress.source == cursor && cursor.height
                == m.progress.source.height + 1
        }),
{
    let part = |i: int| m.record_writes(m.outcome_record(completed[i]));
    let outcomes = fold::gathered(completed.len(), part);
    lemma_outcomes_checked(m, completed);
    assert forall|i: int| 0 <= i < completed.len() implies (#[trigger] part(i)).len() == 0 || exists|record: OccurrenceModel|
        #[trigger] reruns(m, part(i), record) by {
        let stored = m.store.records[completed[i].id.key_bytes()];
        assert(stored.id().key_bytes() == completed[i].id.key_bytes());
        assert(reruns(m, part(i), m.outcome_record(completed[i])));
    }
    lemma_rounds_only(m, completed.len(), part);
    lemma_outcomes_filed(m, completed, completed.len(), part);
    let filed = m.store.write_all(outcomes);
    let commit = m.complete(completed, source)->Ok_0.0.unwrap();
    let after = m.settle(Some(commit));
    let progress = commit.progress.unwrap();
    lemma_dispatched_keeps(m, completed, completed.len());
    if commit.writes != outcomes {
        let write = WriteModel::Block { key: model::height_key(source.unwrap().height), value: None };
        assert(commit.writes == outcomes.push(write));
        assert(commit.writes.drop_last() =~= outcomes);
        assert(m.store.write_all(commit.writes) == filed.write(write));
    }
    if source is Some {
        lemma_blocks_after_advance(m, after, source.unwrap());
    } else {
        assert(after.progress.source == m.progress.source);
    }
    store::lemma_write_all_finite(m.store, commit.writes);
    lemma_rounds_consistent(m, after);
    assert forall|key: Seq<u8>| #[trigger] after.store.records.contains_key(key) implies
        m.store.records[key].attempts.is_prefix_of(after.store.records[key].attempts)
        && after.store.records[key].rounds == m.store.records[key].rounds by {
        assert(m.store.records.contains_key(key));
        let id = m.store.records[key].id();
        if exists|i: int| 0 <= i < completed.len() && (#[trigger] completed[i]).id == id {
            let i = choose|i: int| 0 <= i < completed.len() && (#[trigger] completed[i]).id == id;
            assert(after.store.records[key] == m.outcome_record(completed[i]));
        } else {
            assert(filed.records.contains_key(id.key_bytes()));
            assert(after.store.records[key] == m.store.records[key]);
        }
    }
}

/// Outcomes move only the dispatch marks of the progress.
pub proof fn lemma_dispatched_keeps(m: EvidenceModel, completed: Seq<CompletedModel>, n: nat)
    ensures
        m.dispatched(completed, n) == (Progress {
            last_dispatch_ms: m.dispatched(completed, n).last_dispatch_ms,
            last_dispatch_target: m.dispatched(completed, n).last_dispatch_target,
            ..m.progress
        }),
        m.dispatched(completed, n).last_dispatch_ms >= m.progress.last_dispatch_ms,
    decreases n,
{
    if n > 0 {
        lemma_dispatched_keeps(m, completed, (n - 1) as nat);
    }
}

/// Height keys are exact.
pub proof fn lemma_height_keys(a: u64, b: u64)
    ensures
        model::height_key(a) == model::height_key(b) <==> a == b,
{
    bytes::lemma_span16();
    if model::height_key(a) == model::height_key(b) {
        bytes::lemma_be_injective(a as nat, b as nat, 8);
    }
}

/// Moving the source cursor to the next block keeps the stored blocks right.
proof fn lemma_blocks_after_advance(m: EvidenceModel, after: EvidenceModel, source: BlockCursor)
    requires
        m.consistent(),
        source.height == m.progress.source.height + 1,
        after.progress.source == source,
        after.progress.source_receipts == m.progress.source_receipts,
        after.store.blocks == (if m.progress.source_receipts.height >= source.height {
            m.store.blocks.remove(model::height_key(source.height))
        } else {
            m.store.blocks
        }),
        forall|key: Seq<u8>| #[trigger] after.store.records.contains_key(key) <==> m.store.records.contains_key(key),
        forall|key: Seq<u8>| #[trigger] after.store.records.contains_key(key) ==> same_source(after.store.records[key], m.store.records[key]),
    ensures
        consistency::blocks_right(after.store, after.progress),
        consistency::blocks_kept(after.store, after.progress),
{
    let records = after.store.records;
    assert forall|key: Seq<u8>| #[trigger] records.contains_key(key) && records[key].source.block.height
        > after.progress.source.height implies {
        let height = model::height_key(records[key].source.block.height);
        &&& after.store.blocks.contains_key(height)
        &&& after.store.blocks[height].occurrences.contains(records[key].id())
    } by {
        assert(m.store.records.contains_key(key));
        lemma_height_keys(records[key].source.block.height, source.height);
    }
    assert forall|key: Seq<u8>| #[trigger] after.store.blocks.contains_key(key) implies {
        let block = after.store.blocks[key];
        &&& key == model::height_key(block.cursor.height)
        &&& block.cursor.height > after.progress.source.height || block.cursor.height > after.progress.source_receipts.height
        &&& consistency::block_right(records, block)
    } by {
        let block = after.store.blocks[key];
        assert(m.store.blocks.contains_key(key));
        assert forall|i: int| 0 <= i < block.occurrences.len() implies {
            let id = #[trigger] block.occurrences[i];
            &&& id.source_height == block.cursor.height
            &&& id.source_index < block.hashes.len()
            &&& records.contains_key(id.key_bytes())
            &&& records[id.key_bytes()].source.block == block.cursor
            &&& records[id.key_bytes()].transaction.hash == block.hashes[id.source_index as int]
        } by {
            assert(m.store.records.contains_key(block.occurrences[i].key_bytes()));
            assert(records.contains_key(block.occurrences[i].key_bytes()));
        }
    }
}

/// The source cursor passes a block only in the commit in which the last of its submissions gets
/// an outcome: then every occurrence of the block has one, and the cursor is the prepared block.
pub proof fn law_the_cursor_requires_all_outcomes(
    m: EvidenceModel,
    completed: Seq<CompletedModel>,
    source: BlockCursor,
)
    requires
        m.consistent(),
        m.complete(completed, Some(source)) is Ok,
    ensures
        ({
            let after = m.settle(m.complete(completed, Some(source))->Ok_0.0);
            &&& after.progress.source == source
            &&& source.height == m.progress.source.height + 1
            &&& m.store.blocks.contains_key(model::height_key(source.height))
            &&& m.store.blocks[model::height_key(source.height)].cursor == source
            &&& forall|i: int| 0 <= i < m.store.blocks[model::height_key(source.height)].occurrences.len()
                ==> (after.occurrence(#[trigger] m.store.blocks[model::height_key(source.height)].occurrences[i]) matches Some(record)
                && !record.in_flight && (record.rounds > 0 || record.target is Some))
        }),
{
    let part = |i: int| m.record_writes(m.outcome_record(completed[i]));
    let outcomes = fold::gathered(completed.len(), part);
    lemma_outcomes_checked(m, completed);
    lemma_outcomes_filed(m, completed, completed.len(), part);
    let filed = m.store.write_all(outcomes);
    let commit = m.complete(completed, Some(source))->Ok_0.0.unwrap();
    let after = m.settle(Some(commit));
    if commit.writes != outcomes {
        assert(commit.writes.drop_last() =~= outcomes);
    }
    assert(after.store.records == filed.records);
    let block = m.store.blocks[model::height_key(source.height)];
    assert forall|i: int| 0 <= i < block.occurrences.len() implies (after.occurrence(#[trigger] block.occurrences[i]) matches Some(record)
        && !record.in_flight && (record.rounds > 0 || record.target is Some)) by {
        let id = block.occurrences[i];
        fold::lemma_all_pass(block.occurrences.len(), m.unfinished(completed, block.occurrences), i);
        if exists|j: int| 0 <= j < completed.len() && (#[trigger] completed[j]).id == id {
            let j = choose|j: int| 0 <= j < completed.len() && (#[trigger] completed[j]).id == id;
            assert(filed.records[completed[j].id.key_bytes()] == m.outcome_record(completed[j]));
        } else {
            assert(filed.records.contains_key(id.key_bytes()) == m.store.records.contains_key(id.key_bytes()));
        }
    }
}

/// What the columns hold after the first `n` occurrences of a round were begun.
pub proof fn lemma_round_filed(m: EvidenceModel, ids: Seq<OccurrenceId>, recovery: bool, now: u64, n: nat, part: spec_fn(int) -> Seq<WriteModel>)
    requires
        m.consistent(),
        n <= ids.len(),
        part == (|i: int| m.round_writes(ids[i], recovery, now)),
        forall|i: int| 0 <= i < n ==> m.occurrence(#[trigger] ids[i]) is Some,
    ensures
        ({
            let after = m.store.write_all(fold::gathered(n, part));
            &&& forall|key: Seq<u8>| #[trigger] after.records.contains_key(key) <==> m.store.records.contains_key(key)
            &&& forall|key: Seq<u8>| #[trigger] after.records.contains_key(key) ==> after.records[key] == m.store.records[key]
                || after.records[key] == m.begun(m.store.records[key], now)
            &&& forall|i: int| 0 <= i < n && EvidenceModel::takes_part(m.store.records[(#[trigger] ids[i]).key_bytes()], recovery)
                ==> after.records[ids[i].key_bytes()] == m.begun(m.store.records[ids[i].key_bytes()], now)
        }),
    decreases n,
{
    if n > 0 {
        let before = (n - 1) as nat;
        lemma_round_filed(m, ids, recovery, now, before, part);
        store::lemma_write_all_concat(m.store, fold::gathered(before, part), part(n - 1));
        let mid = m.store.write_all(fold::gathered(before, part));
        let after = m.store.write_all(fold::gathered(n, part));
        let id = ids[n - 1];
        assert(m.occurrence(id) is Some);
        let stored = m.store.records[id.key_bytes()];
        if EvidenceModel::takes_part(stored, recovery) {
            let record = m.begun(stored, now);
            assert(record.id().key_bytes() == id.key_bytes());
            consistency::lemma_record_written(mid, m, record);
        } else {
            assert(mid.write_all(part(n - 1)) == mid);
        }
        assert forall|i: int| 0 <= i < n && EvidenceModel::takes_part(m.store.records[(#[trigger] ids[i]).key_bytes()], recovery) implies
            after.records[ids[i].key_bytes()] == m.begun(m.store.records[ids[i].key_bytes()], now) by {
            assert(m.occurrence(ids[i]) is Some);
            state::law_keys_are_exact(ids[i], id);
        }
    }
}

/// Rounds are bounded across any number of restarts: beginning one keeps the counters together,
/// never lets a record go beyond the budget, and never forgets a round that was begun.
pub proof fn law_rounds_are_bounded(m: EvidenceModel, ids: Seq<OccurrenceId>, recovery: bool, now: u64)
    requires
        m.healthy(),
        m.begin(ids, recovery, now) is Ok,
    ensures
        ({
            let after = m.settle(m.begin(ids, recovery, now)->Ok_0.0);
            &&& after.healthy()
            &&& forall|key: Seq<u8>| #[trigger] after.store.records.contains_key(key) ==> {
                let (old_rounds, new_rounds) = (m.store.records[key].rounds, after.store.records[key].rounds);
                &&& old_rounds <= new_rounds
                &&& new_rounds <= old_rounds || new_rounds <= m.max_rounds
            }
        }),
{
    let part = |i: int| m.round_writes(ids[i], recovery, now);
    assert forall|i: int| 0 <= i < ids.len() implies m.occurrence(#[trigger] ids[i]) is Some by {}
    lemma_round_filed(m, ids, recovery, now, ids.len(), part);
    law_a_round_changes_submission_state_only(m, ids, recovery, now);
    let after = m.settle(m.begin(ids, recovery, now)->Ok_0.0);
    assert(after.store == m.store.write_all(fold::gathered(ids.len(), part)));
    assert forall|key: Seq<u8>| #[trigger] after.store.records.contains_key(key) implies model::sound_record(after.store.records[key]) by {
        assert(m.store.records.contains_key(key));
        assert(model::sound_record(m.store.records[key]));
    }
}

/// What a round hands out is what was committed: the exact stored bytes of an occurrence of the
/// list that is not on the target, has rounds left, was not passed by its window after a first
/// round and, in a block round, has no committed outcome. Its intent is on record first.
pub proof fn law_dispatches_are_committed_intents(
    m: EvidenceModel,
    ids: Seq<OccurrenceId>,
    recovery: bool,
    now: u64,
    dispatch: DispatchModel,
)
    requires
        m.consistent(),
        m.begin(ids, recovery, now) is Ok,
        m.begin(ids, recovery, now)->Ok_0.1.contains(dispatch),
    ensures
        ids.contains(dispatch.id),
        m.occurrence(dispatch.id) matches Some(record) && {
            &&& dispatch.raw == record.raw
            &&& dispatch.transaction == record.transaction
            &&& record.target is None
            &&& record.rounds < m.max_rounds
            &&& record.rounds > 0 ==> !m.expired(record)
            &&& !recovery ==> !model::settled(record)
            &&& dispatch.uncertain_delivery == model::delivery_uncertain(record)
            &&& (m.settle(m.begin(ids, recovery, now)->Ok_0.0).occurrence(dispatch.id) matches Some(begun)
                && begun.in_flight && begun.rounds == record.rounds + 1 && begun.raw == record.raw)
        },
{
    let part = |i: int| m.round_writes(ids[i], recovery, now);
    let out = |i: int| m.round_dispatch(ids[i], recovery, now);
    let at = fold::lemma_gathered_from(ids.len(), out, dispatch);
    assert forall|i: int| 0 <= i < ids.len() implies m.occurrence(#[trigger] ids[i]) is Some by {}
    lemma_round_filed(m, ids, recovery, now, ids.len(), part);
    assert(m.occurrence(ids[at]) is Some);
    let queued = m.round_dispatch(ids[at], recovery, now);
    assert(out(at) == queued);
    let j = choose|j: int| 0 <= j < queued.len() && queued[j] == dispatch;
    assert(dispatch.id == ids[at]);
    let after = m.settle(m.begin(ids, recovery, now)->Ok_0.0);
    assert(after.store == m.store.write_all(fold::gathered(ids.len(), part)));
    assert(after.store.records.contains_key(ids[at].key_bytes()));
}

/// How often an occurrence is among some dispatches.
pub open spec fn times_handed(queued: Seq<DispatchModel>, id: OccurrenceId) -> nat {
    queued.filter(|dispatch: DispatchModel| dispatch.id == id).len()
}

/// How often a round over the first `n` of distinct occurrences hands one of them out.
proof fn lemma_times_handed(
    m: EvidenceModel,
    ids: Seq<OccurrenceId>,
    recovery: bool,
    now: u64,
    id: OccurrenceId,
    n: nat,
    out: spec_fn(int) -> Seq<DispatchModel>,
)
    requires
        n <= ids.len(),
        ids.no_duplicates(),
        out == (|i: int| m.round_dispatch(ids[i], recovery, now)),
    ensures
        times_handed(fold::gathered(n, out), id) == (if ids.take(n as int).contains(id) {
            m.round_dispatch(id, recovery, now).len()
        } else {
            0
        }),
    decreases n,
{
    let pred = |dispatch: DispatchModel| dispatch.id == id;
    reveal(Seq::filter);
    if n > 0 {
        let before = (n - 1) as nat;
        lemma_times_handed(m, ids, recovery, now, id, before, out);
        let (a, b) = (fold::gathered(before, out), out(n - 1));
        Seq::filter_distributes_over_add(a, b, pred);
        let (wide, narrow) = (ids.take(n as int), ids.take(before as int));
        assert(wide[n - 1] == ids[n - 1]);
        assert(b.filter(pred).len() == (if ids[n - 1] == id {
            b.len()
        } else {
            0
        })) by {
            let nothing = Seq::<DispatchModel>::empty();
            assert(nothing.filter(pred) =~= nothing);
            if b.len() > 0 {
                assert(b.drop_last() =~= nothing);
                assert(b.last().id == ids[n - 1]);
            } else {
                assert(b =~= nothing);
            }
        }
        if narrow.contains(id) {
            let i = choose|i: int| 0 <= i < narrow.len() && narrow[i] == id;
            assert(wide[i] == id && ids[i] == id);
            assert(ids[n - 1] != id);
        } else if wide.contains(id) {
            let i = choose|i: int| 0 <= i < wide.len() && wide[i] == id;
            if i < before {
                assert(narrow[i] == id);
            }
        }
    }
}

/// A round over distinct occurrences raises the rounds of each by as often as it hands it out.
pub proof fn law_a_round_is_counted_as_it_is_handed_out(
    m: EvidenceModel,
    ids: Seq<OccurrenceId>,
    recovery: bool,
    now: u64,
    id: OccurrenceId,
)
    requires
        m.consistent(),
        ids.no_duplicates(),
        m.begin(ids, recovery, now) is Ok,
        m.occurrence(id) is Some,
    ensures
        m.settle(m.begin(ids, recovery, now)->Ok_0.0).occurrence(id) matches Some(record) && record.rounds
            == m.store.records[id.key_bytes()].rounds + times_handed(m.begin(ids, recovery, now)->Ok_0.1, id),
{
    let part = |i: int| m.round_writes(ids[i], recovery, now);
    let out = |i: int| m.round_dispatch(ids[i], recovery, now);
    assert forall|i: int| 0 <= i < ids.len() implies m.occurrence(#[trigger] ids[i]) is Some by {}
    lemma_round_filed(m, ids, recovery, now, ids.len(), part);
    lemma_times_handed(m, ids, recovery, now, id, ids.len(), out);
    assert(ids.take(ids.len() as int) =~= ids);
    let key = id.key_bytes();
    let stored = m.store.records[key];
    let after = m.settle(m.begin(ids, recovery, now)->Ok_0.0);
    assert(after.store == m.store.write_all(fold::gathered(ids.len(), part)));
    assert(after.store.records.contains_key(key));
    if ids.contains(id) && EvidenceModel::takes_part(stored, recovery) {
        let i = choose|i: int| 0 <= i < ids.len() && ids[i] == id;
        assert(after.store.records[ids[i].key_bytes()] == m.begun(stored, now));
    } else {
        let holds = |at: StoreModel| at.records.contains_key(key) && at.records[key] == stored;
        assert forall|i: int, at: StoreModel|
            0 <= i < ids.len() && #[trigger] holds(at) implies holds(#[trigger] at.write_all(part(i))) by {
            assert(m.occurrence(ids[i]) is Some);
            let other = m.store.records[ids[i].key_bytes()];
            if EvidenceModel::takes_part(other, recovery) {
                let record = m.begun(other, now);
                assert(other.id().key_bytes() == ids[i].key_bytes());
                assert(record.id() == other.id());
                consistency::lemma_record_written(at, m, record);
                if ids[i].key_bytes() == key {
                    state::law_keys_are_exact(ids[i], id);
                    assert(ids.contains(ids[i]));
                }
            } else {
                assert(part(i) =~= Seq::empty());
                assert(at.write_all(part(i)) == at);
            }
        }
        consistency::lemma_kept(m.store, ids.len(), part, holds);
    }
}

/// A block round leaves alone what is settled: the record of an occurrence with a committed
/// outcome stays as it is.
pub proof fn law_a_block_round_skips_settled_occurrences(
    m: EvidenceModel,
    ids: Seq<OccurrenceId>,
    now: u64,
    id: OccurrenceId,
)
    requires
        m.consistent(),
        m.begin(ids, false, now) is Ok,
        m.occurrence(id) matches Some(record) && model::settled(record),
    ensures
        m.settle(m.begin(ids, false, now)->Ok_0.0).occurrence(id) == m.occurrence(id),
        forall|i: int| 0 <= i < m.begin(ids, false, now)->Ok_0.1.len() ==> (#[trigger] m.begin(ids, false, now)->Ok_0.1[i]).id != id,
{
    let part = |i: int| m.round_writes(ids[i], false, now);
    let holds = |at: StoreModel| at.records.contains_key(id.key_bytes()) && at.records[id.key_bytes()] == m.store.records[id.key_bytes()];
    assert forall|i: int, at: StoreModel|
        0 <= i < ids.len() && #[trigger] holds(at) implies holds(#[trigger] at.write_all(part(i))) by {
        assert(m.occurrence(ids[i]) is Some);
        let stored = m.store.records[ids[i].key_bytes()];
        if EvidenceModel::takes_part(stored, false) {
            let record = m.begun(stored, now);
            assert(record.id() == stored.id());
            assert(stored.id().key_bytes() == ids[i].key_bytes());
            consistency::lemma_record_written(at, m, record);
        } else {
            assert(part(i) =~= Seq::empty());
            assert(at.write_all(part(i)) == at);
        }
    }
    consistency::lemma_kept(m.store, ids.len(), part, holds);
    let queued = m.begin(ids, false, now)->Ok_0.1;
    assert forall|i: int| 0 <= i < queued.len() implies (#[trigger] queued[i]).id != id by {
        assert(queued.contains(queued[i]));
        law_dispatches_are_committed_intents(m, ids, false, now, queued[i]);
    }
}

/// Committing outcomes keeps the counters together, and no record ever holds more attempts than
/// the bound.
pub proof fn law_attempts_are_bounded(m: EvidenceModel, completed: Seq<CompletedModel>, source: Option<BlockCursor>)
    requires
        m.healthy(),
        m.complete(completed, source) is Ok,
    ensures
        ({
            let after = m.settle(m.complete(completed, source)->Ok_0.0);
            &&& after.healthy()
            &&& forall|key: Seq<u8>| #[trigger] after.store.records.contains_key(key) ==> after.store.records[key].attempts.len() <= model::MAX_ATTEMPTS
        }),
{
    law_completion_keeps_observations(m, completed, source);
    let part = |i: int| m.record_writes(m.outcome_record(completed[i]));
    let outcomes = fold::gathered(completed.len(), part);
    lemma_outcomes_checked(m, completed);
    lemma_outcomes_filed(m, completed, completed.len(), part);
    let filed = m.store.write_all(outcomes);
    let commit = m.complete(completed, source)->Ok_0.0.unwrap();
    let after = m.settle(Some(commit));
    if commit.writes != outcomes {
        assert(commit.writes.drop_last() =~= outcomes);
    }
    assert(after.store.records == filed.records);
    assert forall|key: Seq<u8>| #[trigger] after.store.records.contains_key(key) implies model::sound_record(after.store.records[key]) by {
        assert(m.store.records.contains_key(key));
        assert(model::sound_record(m.store.records[key]));
        let id = m.store.records[key].id();
        if exists|i: int| 0 <= i < completed.len() && (#[trigger] completed[i]).id == id {
            let i = choose|i: int| 0 <= i < completed.len() && (#[trigger] completed[i]).id == id;
            assert(filed.records[completed[i].id.key_bytes()] == m.outcome_record(completed[i]));
        } else {
            assert(filed.records.contains_key(id.key_bytes()) == m.store.records.contains_key(id.key_bytes()));
        }
    }
}

/// A record holds at most so many attempts for each round that ended with an outcome.
pub open spec fn paced(record: OccurrenceModel, per_round: nat) -> bool {
    let open = if record.in_flight {
        1int
    } else {
        0int
    };
    record.attempts.len() <= (record.rounds - record.interrupted_rounds - open) * per_round
}

/// With bounded rounds and bounded attempts in each, the bound on attempts refuses no outcome: a
/// record that is paced stays so when a round is begun and when its outcome is committed, and the
/// outcome is within the bound.
pub proof fn law_bounded_rounds_stay_within_the_attempt_bound(
    m: EvidenceModel,
    record: OccurrenceModel,
    attempts: Seq<state::AttemptModel>,
    max_rounds: nat,
    per_round: nat,
    now: u64,
)
    requires
        model::sound_record(record),
        record.rounds <= max_rounds,
        max_rounds * per_round <= model::MAX_ATTEMPTS,
        paced(record, per_round),
        attempts.len() <= per_round,
    ensures
        paced(m.begun(record, now), per_round),
        record.in_flight ==> paced(model::completed_record(record, attempts), per_round),
        record.in_flight ==> record.attempts.len() + attempts.len() <= model::MAX_ATTEMPTS,
{
    if record.in_flight {
        let ended = record.rounds - record.interrupted_rounds - 1;
        assert((ended + 1) * per_round == ended * per_round + per_round) by (nonlinear_arith);
        assert((ended + 1) * per_round <= max_rounds * per_round) by (nonlinear_arith)
            requires
                ended + 1 <= max_rounds,
        ;
    }
}

/// Where the counters of every record fit together, a round can be begun for any occurrences.
pub proof fn law_sound_records_allow_every_round(m: EvidenceModel, ids: Seq<OccurrenceId>)
    requires
        m.sound(),
    ensures
        m.countable(ids),
{
    assert forall|i: int| 0 <= i < ids.len() implies (m.occurrence(#[trigger] ids[i]) matches Some(record)
        ==> record.in_flight ==> record.interrupted_rounds < u32::MAX) by {
        assert(m.store.records.contains_key(ids[i].key_bytes()) ==> model::sound_record(
            m.store.records[ids[i].key_bytes()],
        ));
    }
}

/// A recovery sweep touches no record, whatever the store holds.
pub proof fn lemma_a_sweep_keeps_the_records(m: EvidenceModel)
    requires
        m.recover() is Ok,
    ensures
        m.settle(m.recover()->Ok_0.0).store.records == m.store.records,
{
    let keys = m.recovery_keys();
    let part = |i: int|
        if m.recovery_stale(keys[i]) {
            seq![WriteModel::Recovery { key: keys[i], present: false }]
        } else {
            Seq::empty()
        };
    let holds = |at: StoreModel| at.records == m.store.records;
    assert forall|i: int, at: StoreModel|
        0 <= i < keys.len() && #[trigger] holds(at) implies holds(#[trigger] at.write_all(part(i))) by {
        if m.recovery_stale(keys[i]) {
            let write = WriteModel::Recovery { key: keys[i], present: false };
            assert(part(i) == seq![write]);
            assert(part(i).drop_last() =~= Seq::empty());
            assert(at.write_all(part(i).drop_last()) == at);
            assert(at.write_all(part(i)) == at.write(write));
        } else {
            assert(at.write_all(part(i)) == at);
        }
    }
    consistency::lemma_kept(m.store, keys.len(), part, holds);
}

/// A recovery sweep changes nothing but the recovery index, from which it removes no open
/// submission.
pub proof fn law_a_recovery_sweep_keeps_every_record(m: EvidenceModel)
    requires
        m.consistent(),
        m.recover() is Ok,
    ensures
        ({
            let after = m.settle(m.recover()->Ok_0.0);
            &&& after.consistent()
            &&& after.store == (StoreModel { recovery: after.store.recovery, ..m.store })
            &&& after.progress == m.progress
            &&& m.sound() ==> after.sound()
        }),
{
    let keys = m.recovery_keys();
    let part = |i: int|
        if m.recovery_stale(keys[i]) {
            seq![WriteModel::Recovery { key: keys[i], present: false }]
        } else {
            Seq::empty()
        };
    let after = m.settle(m.recover()->Ok_0.0);
    let holds = |at: StoreModel|
        {
            &&& at == (StoreModel { recovery: at.recovery, ..m.store })
            &&& consistency::marks_right(at)
            &&& at.recovery.dom().finite()
        };
    assert forall|i: int, at: StoreModel|
        0 <= i < keys.len() && #[trigger] holds(at) implies holds(#[trigger] at.write_all(part(i))) by {
        fold::lemma_all_pass(keys.len(), m.recovery_error(keys), i);
        state::law_decoding_keeps_the_key(keys[i]);
        if m.recovery_stale(keys[i]) {
            let write = WriteModel::Recovery { key: keys[i], present: false };
            assert(part(i) == seq![write]);
            assert(part(i).drop_last() =~= Seq::empty());
            assert(at.write_all(part(i).drop_last()) == at);
            assert(at.write_all(part(i)) == at.write(write));
            let next = at.write(write);
            assert(next.recovery == at.recovery.remove(keys[i]));
            assert(next.pending == at.pending && next.clean == at.clean && next.records == at.records);
            assert(consistency::marks_right(next));
        } else {
            assert(part(i) =~= Seq::empty());
            assert(at.write_all(part(i)) == at);
        }
    }
    consistency::lemma_kept(m.store, keys.len(), part, holds);
    if m.recover()->Ok_0.0 is Some {
        assert(after.store == m.store.write_all(fold::gathered(keys.len(), part)));
        assert(holds(after.store));
    }
}

/// What a sweep over the first `n` entries leaves in the recovery index.
proof fn lemma_swept(m: EvidenceModel, n: nat, part: spec_fn(int) -> Seq<WriteModel>, key: Seq<u8>)
    requires
        n <= m.recovery_keys().len(),
        part == (|i: int|
            if m.recovery_stale(m.recovery_keys()[i]) {
                seq![WriteModel::Recovery { key: m.recovery_keys()[i], present: false }]
            } else {
                Seq::empty()
            }),
    ensures
        m.store.write_all(fold::gathered(n, part)).recovery.contains_key(key) <==> m.store.recovery.contains_key(key)
            && !(m.recovery_stale(key) && m.recovery_keys().take(n as int).contains(key)),
    decreases n,
{
    let keys = m.recovery_keys();
    if n > 0 {
        let before = (n - 1) as nat;
        lemma_swept(m, before, part, key);
        let at = m.store.write_all(fold::gathered(before, part));
        store::lemma_write_all_concat(m.store, fold::gathered(before, part), part(n - 1));
        if m.recovery_stale(keys[n - 1]) {
            let write = WriteModel::Recovery { key: keys[n - 1], present: false };
            assert(part(n - 1) == seq![write]);
            assert(part(n - 1).drop_last() =~= Seq::empty());
            assert(at.write_all(part(n - 1).drop_last()) == at);
            assert(at.write_all(part(n - 1)) == at.write(write));
        } else {
            assert(at.write_all(part(n - 1)) == at);
        }
        let (wide, narrow) = (keys.take(n as int), keys.take(before as int));
        assert(wide[n - 1] == keys[n - 1]);
        if narrow.contains(key) {
            let i = choose|i: int| 0 <= i < narrow.len() && narrow[i] == key;
            assert(wide[i] == key);
        }
        if wide.contains(key) && key != keys[n - 1] {
            let i = choose|i: int| 0 <= i < wide.len() && wide[i] == key;
            assert(narrow[i] == key);
        }
    }
}

/// A recovery sweep removes every stale entry that it reads, and no other one: what left the window
/// or has nothing to recover cannot keep later entries from being read.
pub proof fn law_a_sweep_removes_what_is_stale(m: EvidenceModel, key: Seq<u8>)
    requires
        m.consistent(),
        m.recovery_keys().contains(key),
    ensures
        m.recover() matches Ok((commit, due)) && (m.settle(commit).store.recovery.contains_key(key) <==> !m.recovery_stale(key)),
{
    let keys = m.recovery_keys();
    let part = |i: int|
        if m.recovery_stale(keys[i]) {
            seq![WriteModel::Recovery { key: keys[i], present: false }]
        } else {
            Seq::empty()
        };
    crate::evidence::retention_laws::law_a_consistent_store_has_no_index_errors(m, B256 { hi: 0, lo: 0 }, 0);
    table::lemma_finite_lists(m.store.recovery);
    table::lemma_in_range(
        m.store.recovery,
        Seq::empty(),
        (OccurrenceId { source_height: m.progress.source.height, source_index: u32::MAX }).key_bytes(),
        model::SWEEP as nat,
    );
    let i = choose|i: int| 0 <= i < keys.len() && keys[i] == key;
    assert(m.store.recovery.contains_key(keys[i]));
    lemma_swept(m, keys.len(), part, key);
    assert(keys.take(keys.len() as int) =~= keys);
    if m.recover()->Ok_0.0 is None {
        assert(fold::gathered(keys.len(), part) =~= Seq::empty());
        assert(m.store.write_all(fold::gathered(keys.len(), part)) == m.store);
    }
}

/// What a recovery round takes up is an open submission that is to be closed, or one inside the
/// window that still has rounds, is not on the target, has not expired, and does not wait for the
/// target to move past the head at which it was rejected.
pub proof fn law_recovery_takes_up_only_what_may_be_retried(m: EvidenceModel, id: OccurrenceId)
    requires
        m.recover() is Ok,
        m.recover()->Ok_0.1.contains(id),
    ensures
        m.occurrence(id) matches Some(record) && (record.in_flight || {
            &&& record.target is None
            &&& record.rounds < m.max_rounds
            &&& !m.expired(record)
            &&& id.source_height >= m.recovery_floor()
            &&& !m.awaiting_head(record)
            &&& m.recoverable(record)
        }),
{
    let keys = m.recovery_keys();
    let due = |i: int|
        if m.recovery_due(keys[i]) {
            seq![state::decoded(keys[i]).unwrap()]
        } else {
            Seq::empty()
        };
    let at = fold::lemma_gathered_from(keys.len(), due, id);
    fold::lemma_all_pass(keys.len(), m.recovery_error(keys), at);
    let found = due(at);
    let j = choose|j: int| 0 <= j < found.len() && found[j] == id;
    assert(state::decoded(keys[at]).unwrap() == id);
}

/// Recovery never retries a rejection whose reason is unknown, nor one for a closed window: the
/// last attempt of what it takes up, when its round has a committed outcome, is ambiguous or a
/// known state-dependent rejection.
pub proof fn law_unknown_rejections_are_not_retried(m: EvidenceModel, id: OccurrenceId)
    requires
        m.recover() is Ok,
        m.recover()->Ok_0.1.contains(id),
        m.occurrence(id) matches Some(record) && !record.in_flight && !record.unfinished_round()
            && record.attempts.len() > 0,
    ensures
        m.occurrence(id) matches Some(record) && {
            let last = record.attempts.last();
            &&& last.disposition == Disposition::Ambiguous || (last.disposition == Disposition::Rejected
                && (last.failure matches Some(failure) && failure.retry_after_head()
                && !failure.expired_at_admission()))
        },
{
    law_recovery_takes_up_only_what_may_be_retried(m, id);
    let record = m.occurrence(id).unwrap();
    if let Some(failure) = record.attempts.last().failure {
        state::law_expiry_is_never_retried(failure);
    }
}

/// Recovery closes every submission that a crash left open, also that of an occurrence that was seen
/// on the target meanwhile: the sweep finds it, unless the sweep is full before it comes to it, and the
/// round counts the interruption. An occurrence on the target is not handed out again.
pub proof fn law_recovery_closes_every_open_submission(m: EvidenceModel, id: OccurrenceId, now: u64)
    requires
        m.healthy(),
        m.occurrence(id) matches Some(record) && record.in_flight,
    ensures
        m.recover() is Ok,
        id.source_height <= m.progress.source.height && m.recovery_keys().len() < model::SWEEP
            ==> m.recovery_keys().contains(id.key_bytes()),
        m.recovery_keys().contains(id.key_bytes()) ==> {
            let record = m.store.records[id.key_bytes()];
            let swept = m.settle(m.recover()->Ok_0.0);
            let due = m.recover()->Ok_0.1;
            &&& due.contains(id)
            &&& swept.begin(due, true, now) matches Ok((commit, queued)) && {
                &&& swept.settle(commit).occurrence(id) matches Some(closed) && {
                    &&& closed == m.begun(record, now)
                    &&& closed.interrupted_rounds == record.interrupted_rounds + 1
                    &&& record.target is Some ==> !closed.in_flight
                }
                &&& record.target is Some ==> forall|dispatch: DispatchModel| #[trigger] queued.contains(dispatch)
                    ==> dispatch.id != id
            }
        },
{
    let key = id.key_bytes();
    let record = m.store.records[key];
    let keys = m.recovery_keys();
    let end = OccurrenceId { source_height: m.progress.source.height, source_index: u32::MAX };
    retention_laws::law_a_consistent_store_has_no_index_errors(m, record.transaction.hash, 0);
    law_a_recovery_sweep_keeps_every_record(m);
    assert(m.store.records.contains_key(key));
    assert(model::sound_record(record));
    table::lemma_finite_lists(m.store.recovery);
    table::lemma_in_range(m.store.recovery, Seq::empty(), end.key_bytes(), model::SWEEP as nat);
    if id.source_height <= m.progress.source.height {
        state::law_keys_are_ordered(id, end);
        state::law_keys_are_exact(id, end);
        assert(bytes::not_after(Seq::empty(), key)) by {
            state::lemma_key_len(id);
            assert(bytes::differ_at(Seq::empty(), key, 0));
        }
        assert(m.store.recovery.contains_key(key));
    }
    if keys.contains(key) {
        let swept = m.settle(m.recover()->Ok_0.0);
        let due = m.recover()->Ok_0.1;
        let out = |i: int|
            if m.recovery_due(keys[i]) {
                seq![state::decoded(keys[i]).unwrap()]
            } else {
                Seq::empty()
            };
        assert(due == fold::gathered(keys.len(), out));
        let at = choose|at: int| 0 <= at < keys.len() && keys[at] == key;
        state::law_keys_are_exact(id, id);
        assert(out(at) =~= seq![id]);
        assert(out(at)[0] == id);
        fold::lemma_gathered_holds(keys.len(), out, at, id);
        assert forall|i: int| 0 <= i < due.len() implies swept.occurrence(#[trigger] due[i]) is Some by {
            assert(due.contains(due[i]));
            let j = fold::lemma_gathered_from(keys.len(), out, due[i]);
            assert(m.store.recovery.contains_key(keys[j]));
            assert(m.store.records.contains_key(keys[j]));
            state::lemma_key_len(m.store.records[keys[j]].id());
            state::law_decoding_keeps_the_key(keys[j]);
            assert(out(j)[0] == due[i]);
        }
        let part = |i: int| swept.round_writes(due[i], true, now);
        lemma_round_filed(swept, due, true, now, due.len(), part);
        let i = choose|i: int| 0 <= i < due.len() && due[i] == id;
        let after = swept.settle(swept.begin(due, true, now)->Ok_0.0);
        assert(after.store == swept.store.write_all(fold::gathered(due.len(), part)));
        assert(after.store.records[due[i].key_bytes()] == swept.begun(record, now));
        assert(swept.begun(record, now) == m.begun(record, now));
        assert(after.store.records.contains_key(key));
        let queued = swept.begin(due, true, now)->Ok_0.1;
        assert forall|dispatch: DispatchModel| record.target is Some && #[trigger] queued.contains(dispatch) implies dispatch.id
            != id by {
            law_dispatches_are_committed_intents(swept, due, true, now, dispatch);
        }
    }
}

} // verus!
