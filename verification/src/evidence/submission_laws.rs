//! Submission rounds, told by what goes in and what comes out.

use crate::evidence::consistency;
use crate::evidence::model;
use crate::evidence::model::{CompletedModel, DispatchModel, EvidenceModel};
use crate::evidence::round_laws;
use crate::evidence::{EvidenceError, Progress};
use crate::fold;
use crate::state;
use crate::state::{BlockCursor, Disposition, OccurrenceId, OccurrenceModel};
use crate::store::StoreModel;
use vstd::prelude::*;

verus! {

// Outcomes.

/// The records after a commit of outcomes: those of the outcomes, and all others as they were.
proof fn lemma_completed(m: EvidenceModel, completed: Seq<CompletedModel>, source: Option<BlockCursor>)
    requires
        m.consistent(),
        m.complete(completed, source) is Ok,
    ensures
        ({
            let after = m.settle(m.complete(completed, source)->Ok_0.0);
            &&& forall|i: int| 0 <= i < completed.len() ==> {
                &&& m.occurrence((#[trigger] completed[i]).id) is Some
                &&& after.occurrence(completed[i].id) == Some(m.outcome_record(completed[i]))
            }
            &&& forall|id: OccurrenceId| (forall|i: int| 0 <= i < completed.len() ==> (#[trigger] completed[i]).id != id)
                ==> #[trigger] after.occurrence(id) == m.occurrence(id)
        }),
{
    let part = |i: int| m.record_writes(m.outcome_record(completed[i]));
    let outcomes = fold::gathered(completed.len(), part);
    round_laws::lemma_outcomes_checked(m, completed);
    round_laws::lemma_outcomes_filed(m, completed, completed.len(), part);
    let filed = m.store.write_all(outcomes);
    let commit = m.complete(completed, source)->Ok_0.0->0;
    let after = m.settle(Some(commit));
    if commit.writes != outcomes {
        assert(commit.writes.drop_last() =~= outcomes);
    }
    assert(after.store.records == filed.records);
    assert forall|id: OccurrenceId| (forall|i: int| 0 <= i < completed.len() ==> (#[trigger] completed[i]).id != id) implies
        #[trigger] after.occurrence(id) == m.occurrence(id) by {
        assert(filed.records.contains_key(id.key_bytes()) == m.store.records.contains_key(id.key_bytes()));
    }
}

/// The attempts of a round are filed behind those on record, in the order in which they were made: the
/// last attempt on record is the last one reported. The round counts as completed and is open no more,
/// and nothing else of the record changes.
pub proof fn law_attempts_are_filed_in_the_order_made(
    m: EvidenceModel,
    completed: Seq<CompletedModel>,
    source: Option<BlockCursor>,
    i: int,
)
    requires
        m.consistent(),
        m.complete(completed, source) is Ok,
        0 <= i < completed.len(),
    ensures
        m.occurrence(completed[i].id) is Some,
        m.settle(m.complete(completed, source)->Ok_0.0).occurrence(completed[i].id) is Some,
        ({
            let before = m.occurrence(completed[i].id)->0;
            let after = m.settle(m.complete(completed, source)->Ok_0.0).occurrence(completed[i].id)->0;
            let (had, made) = (before.attempts.len() as int, completed[i].attempts.len() as int);
            &&& made > 0
            &&& after.attempts.len() == had + made
            &&& after.attempts.len() <= 40
            &&& forall|j: int| 0 <= j < had ==> #[trigger] after.attempts[j] == before.attempts[j]
            &&& forall|j: int| 0 <= j < made ==> after.attempts[had + j] == #[trigger] completed[i].attempts[j]
            &&& after.attempts.last() == completed[i].attempts[made - 1]
            &&& before.in_flight && !after.in_flight
            &&& after.completed_round == before.rounds
            &&& after == (OccurrenceModel {
                attempts: after.attempts,
                in_flight: after.in_flight,
                completed_round: after.completed_round,
                ..before
            })
        }),
{
    lemma_completed(m, completed, source);
    round_laws::lemma_outcomes_checked(m, completed);
    assert(m.occurrence(completed[i].id) is Some);
}

/// A commit of outcomes leaves alone every record for which it has none.
pub proof fn law_outcomes_touch_their_own_records_only(
    m: EvidenceModel,
    completed: Seq<CompletedModel>,
    source: Option<BlockCursor>,
    id: OccurrenceId,
)
    requires
        m.consistent(),
        m.complete(completed, source) is Ok,
        forall|i: int| 0 <= i < completed.len() ==> (#[trigger] completed[i]).id != id,
    ensures
        m.settle(m.complete(completed, source)->Ok_0.0).occurrence(id) == m.occurrence(id),
{
    lemma_completed(m, completed, source);
}

/// Outcomes are taken, without moving the cursor, if and only if each is that of an open submission,
/// holds at least one attempt, stays within forty attempts with those on record, and comes once.
pub proof fn law_outcomes_are_taken_for_open_submissions(m: EvidenceModel, completed: Seq<CompletedModel>)
    ensures
        m.complete(completed, None) is Ok <==> {
            &&& forall|i: int| 0 <= i < completed.len() ==> {
                &&& m.occurrence((#[trigger] completed[i]).id) is Some
                &&& m.occurrence(completed[i].id)->0.in_flight
                &&& completed[i].attempts.len() > 0
                &&& m.occurrence(completed[i].id)->0.attempts.len() + completed[i].attempts.len() <= 40
            }
            &&& forall|i: int, j: int| 0 <= i < j < completed.len() ==> (#[trigger] completed[i]).id
                != (#[trigger] completed[j]).id
        },
{
    let check = m.completion_error(completed);
    if m.complete(completed, None) is Ok {
        round_laws::lemma_outcomes_checked(m, completed);
    } else if forall|i: int| 0 <= i < completed.len() ==> {
        &&& m.occurrence((#[trigger] completed[i]).id) is Some
        &&& m.occurrence(completed[i].id)->0.in_flight
        &&& completed[i].attempts.len() > 0
        &&& m.occurrence(completed[i].id)->0.attempts.len() + completed[i].attempts.len() <= 40
    } {
        if forall|i: int, j: int| 0 <= i < j < completed.len() ==> (#[trigger] completed[i]).id != (#[trigger] completed[j]).id {
            assert forall|i: int| 0 <= i < completed.len() implies (#[trigger] check(i)) is None by {
                assert(m.occurrence(completed[i].id) is Some);
            }
            fold::lemma_no_error(completed.len(), check);
        }
    }
}

/// The cursor moves with the outcomes if and only if they can be taken and it moves to the next block,
/// which was prepared as this one, and no occurrence of that block is left without an outcome: each has
/// one now, or its round is over, or it was seen on the target before any.
pub proof fn law_the_cursor_moves_when_nothing_of_the_block_is_open(
    m: EvidenceModel,
    completed: Seq<CompletedModel>,
    source: BlockCursor,
)
    requires
        m.healthy(),
    ensures
        m.complete(completed, Some(source)) is Ok <==> {
            let key = model::height_key(source.height);
            &&& m.complete(completed, None) is Ok
            &&& source.height == m.progress.source.height + 1
            &&& m.store.blocks.contains_key(key)
            &&& m.store.blocks[key].cursor == source
            &&& forall|k: int| 0 <= k < m.store.blocks[key].occurrences.len() ==> {
                let id = #[trigger] m.store.blocks[key].occurrences[k];
                ||| exists|i: int| 0 <= i < completed.len() && (#[trigger] completed[i]).id == id
                ||| m.occurrence(id) is Some && !m.occurrence(id)->0.in_flight && (m.occurrence(id)->0.rounds > 0
                    || m.occurrence(id)->0.target is Some)
            }
        },
{
    let key = model::height_key(source.height);
    if m.complete(completed, None) is Ok && source.height == m.progress.source.height + 1 && m.store.blocks.contains_key(key)
        && m.store.blocks[key].cursor == source {
        round_laws::lemma_outcomes_checked(m, completed);
        let ids = m.store.blocks[key].occurrences;
        let check = m.unfinished(completed, ids);
        assert forall|k: int| 0 <= k < ids.len() implies ((#[trigger] check(k)) is None <==> {
            ||| exists|i: int| 0 <= i < completed.len() && (#[trigger] completed[i]).id == ids[k]
            ||| m.occurrence(ids[k]) is Some && !m.occurrence(ids[k])->0.in_flight && (m.occurrence(ids[k])->0.rounds > 0
                || m.occurrence(ids[k])->0.target is Some)
        }) by {
            if exists|i: int| 0 <= i < completed.len() && (#[trigger] completed[i]).id == ids[k] {
                let i = choose|i: int| 0 <= i < completed.len() && (#[trigger] completed[i]).id == ids[k];
                assert(m.occurrence(completed[i].id) is Some);
                assert(model::sound_record(m.store.records[completed[i].id.key_bytes()]));
            }
        }
        if fold::first_error(ids.len(), check) is None {
            assert forall|k: int| 0 <= k < ids.len() implies {
                let id = #[trigger] m.store.blocks[key].occurrences[k];
                ||| exists|i: int| 0 <= i < completed.len() && (#[trigger] completed[i]).id == id
                ||| m.occurrence(id) is Some && !m.occurrence(id)->0.in_flight && (m.occurrence(id)->0.rounds > 0
                    || m.occurrence(id)->0.target is Some)
            } by {
                fold::lemma_all_pass(ids.len(), check, k);
                assert(check(k) is None);
            }
        } else if forall|k: int| 0 <= k < ids.len() ==> {
            let id = #[trigger] m.store.blocks[key].occurrences[k];
            ||| exists|i: int| 0 <= i < completed.len() && (#[trigger] completed[i]).id == id
            ||| m.occurrence(id) is Some && !m.occurrence(id)->0.in_flight && (m.occurrence(id)->0.rounds > 0
                || m.occurrence(id)->0.target is Some)
        } {
            assert forall|k: int| 0 <= k < ids.len() implies (#[trigger] check(k)) is None by {
                let id = m.store.blocks[key].occurrences[k];
            }
            fold::lemma_no_error(ids.len(), check);
        }
    }
}

/// The progress tells the last dispatch: its time is the latest at which an attempt of these outcomes,
/// or one before them, ended, and its target is where the target stood when the last of them was
/// dispatched. The source cursor moves where it is told to, and nothing else of the progress changes.
pub proof fn law_the_progress_tells_the_last_dispatch(
    m: EvidenceModel,
    completed: Seq<CompletedModel>,
    source: Option<BlockCursor>,
)
    requires
        m.complete(completed, source) is Ok,
    ensures
        ({
            let after = m.settle(m.complete(completed, source)->Ok_0.0).progress;
            let n = completed.len() as int;
            &&& after.last_dispatch_ms >= m.progress.last_dispatch_ms
            &&& forall|i: int| 0 <= i < n ==> after.last_dispatch_ms >= (#[trigger] completed[i]).attempts[completed[i].attempts.len()
                - 1].completed_at_ms
            &&& after.last_dispatch_ms == m.progress.last_dispatch_ms || exists|i: int|
                0 <= i < n && after.last_dispatch_ms == (#[trigger] completed[i]).attempts[completed[i].attempts.len()
                    - 1].completed_at_ms
            &&& after.last_dispatch_target == (if n > 0 {
                m.store.records[completed[n - 1].id.key_bytes()].target_at_dispatch
            } else {
                m.progress.last_dispatch_target
            })
            &&& after.source == (if source is Some { source->0 } else { m.progress.source })
            &&& after == (Progress {
                last_dispatch_ms: after.last_dispatch_ms,
                last_dispatch_target: after.last_dispatch_target,
                source: after.source,
                ..m.progress
            })
        }),
{
    lemma_last_dispatch(m, completed, completed.len());
    round_laws::lemma_dispatched_keeps(m, completed, completed.len());
}

proof fn lemma_last_dispatch(m: EvidenceModel, completed: Seq<CompletedModel>, n: nat)
    requires
        n <= completed.len(),
    ensures
        ({
            let after = m.dispatched(completed, n);
            &&& after.last_dispatch_ms >= m.progress.last_dispatch_ms
            &&& forall|i: int| 0 <= i < n ==> after.last_dispatch_ms >= (#[trigger] completed[i]).attempts[completed[i].attempts.len()
                - 1].completed_at_ms
            &&& after.last_dispatch_ms == m.progress.last_dispatch_ms || exists|i: int|
                0 <= i < n && after.last_dispatch_ms == (#[trigger] completed[i]).attempts[completed[i].attempts.len()
                    - 1].completed_at_ms
            &&& after.last_dispatch_target == (if n > 0 {
                m.store.records[completed[n - 1].id.key_bytes()].target_at_dispatch
            } else {
                m.progress.last_dispatch_target
            })
        }),
    decreases n,
{
    if n > 0 {
        lemma_last_dispatch(m, completed, (n - 1) as nat);
        assert(completed[n - 1].attempts.last() == completed[n - 1].attempts[completed[n - 1].attempts.len() - 1]);
        let (before, after) = (m.dispatched(completed, (n - 1) as nat), m.dispatched(completed, n));
        if after.last_dispatch_ms != before.last_dispatch_ms {
            assert(after.last_dispatch_ms == completed[n - 1].attempts[completed[n - 1].attempts.len() - 1].completed_at_ms);
        }
    }
}

/// A source block is forgotten with the commit that moves the cursor over it if and only if its
/// receipts are on record already; every other block stays.
pub proof fn law_a_block_is_kept_until_both_its_cursors_passed(
    m: EvidenceModel,
    completed: Seq<CompletedModel>,
    source: BlockCursor,
)
    requires
        m.consistent(),
        m.complete(completed, Some(source)) is Ok,
    ensures
        ({
            let after = m.settle(m.complete(completed, Some(source))->Ok_0.0);
            &&& after.store.blocks.contains_key(model::height_key(source.height)) <==> m.progress.source_receipts.height
                < source.height
            &&& forall|height: u64| height != source.height ==> (#[trigger] after.store.blocks.contains_key(
                model::height_key(height),
            ) <==> m.store.blocks.contains_key(model::height_key(height)))
            &&& forall|key: Seq<u8>| #[trigger] after.store.blocks.contains_key(key) ==> after.store.blocks[key]
                == m.store.blocks[key]
        }),
{
    let part = |i: int| m.record_writes(m.outcome_record(completed[i]));
    let outcomes = fold::gathered(completed.len(), part);
    let commit = m.complete(completed, Some(source))->Ok_0.0->0;
    let after = m.settle(Some(commit));
    round_laws::lemma_outcomes_checked(m, completed);
    round_laws::lemma_dispatched_keeps(m, completed, completed.len());
    let holds = |at: StoreModel| at.blocks == m.store.blocks;
    assert forall|i: int, at: StoreModel|
        0 <= i < completed.len() && #[trigger] holds(at) implies holds(#[trigger] at.write_all(part(i))) by {
        consistency::lemma_record_written(at, m, m.outcome_record(completed[i]));
    }
    consistency::lemma_kept(m.store, completed.len(), part, holds);
    let filed = m.store.write_all(outcomes);
    assert(filed.blocks == m.store.blocks);
    if commit.writes != outcomes {
        assert(commit.writes.drop_last() =~= outcomes);
    }
    assert forall|height: u64| height != source.height implies (#[trigger] after.store.blocks.contains_key(
        model::height_key(height),
    ) <==> m.store.blocks.contains_key(model::height_key(height))) by {
        round_laws::lemma_height_keys(height, source.height);
    }
}

/// A refusal says what is wrong with one of the outcomes.
pub proof fn law_a_refused_outcome_is_called_by_its_fault(m: EvidenceModel, completed: Seq<CompletedModel>) -> (i: int)
    requires
        m.complete(completed, None) is Err,
    ensures
        0 <= i < completed.len(),
        ({
            let error = m.complete(completed, None)->Err_0;
            let record = m.occurrence(completed[i].id);
            ||| error == EvidenceError::MissingDispatchRecord && record is None
            ||| error == EvidenceError::CompletedWithoutIntent && record is Some && !record->0.in_flight
            ||| error == EvidenceError::CompletedWithoutEvidence && record is Some && completed[i].attempts.len() == 0
            ||| error == EvidenceError::AttemptBound && record is Some && record->0.attempts.len()
                + completed[i].attempts.len() > 40
            ||| error == EvidenceError::DuplicateCompletion && exists|j: int| 0 <= j < i && (#[trigger] completed[j]).id
                == completed[i].id
        }),
{
    lemma_error_from(completed.len(), m.completion_error(completed))
}

/// A cursor that is not moved, though the outcomes can be taken, says why: it would skip a block or go
/// back, the block was not prepared, another block was, or something of it is not finished.
pub proof fn law_a_cursor_that_stays_says_why(m: EvidenceModel, completed: Seq<CompletedModel>, source: BlockCursor)
    requires
        m.complete(completed, None) is Ok,
        m.complete(completed, Some(source)) is Err,
    ensures
        ({
            let error = m.complete(completed, Some(source))->Err_0;
            let key = model::height_key(source.height);
            let next = source.height == m.progress.source.height + 1;
            let prepared = m.store.blocks.contains_key(key);
            let same = m.store.blocks[key].cursor == source;
            &&& error == EvidenceError::SourceAdvanceNotContiguous <==> !next
            &&& error == EvidenceError::NoDurableIntent <==> next && !prepared
            &&& error == EvidenceError::CompletionHashMismatch <==> next && prepared && !same
            &&& error == EvidenceError::MissingSourceOccurrence || error == EvidenceError::UnfinishedSubmissions <==> next
                && prepared && same
        }),
{
    let key = model::height_key(source.height);
    let ids = m.store.blocks[key].occurrences;
    if source.height == m.progress.source.height + 1 && m.store.blocks.contains_key(key) && m.store.blocks[key].cursor == source {
        let k = lemma_error_from(ids.len(), m.unfinished(completed, ids));
    }
}

/// The error of a walk is that of one of its positions.
pub proof fn lemma_error_from<E>(n: nat, check: spec_fn(int) -> Option<E>) -> (at: int)
    requires
        fold::first_error(n, check) is Some,
    ensures
        0 <= at < n,
        check(at) == fold::first_error(n, check),
    decreases n,
{
    if fold::first_error((n - 1) as nat, check) is Some {
        lemma_error_from((n - 1) as nat, check)
    } else {
        n - 1
    }
}

// Rounds.

/// A round is begun if and only if every occurrence of its list is on record. It moves no progress.
pub proof fn law_a_round_needs_the_record_of_each_occurrence(m: EvidenceModel, ids: Seq<OccurrenceId>, recovery: bool, now: u64)
    ensures
        m.begin(ids, recovery, now) is Ok <==> forall|i: int| 0 <= i < ids.len() ==> m.occurrence(#[trigger] ids[i]) is Some,
        m.begin(ids, recovery, now) matches Ok((commit, _)) ==> m.settle(commit).progress == m.progress,
        m.begin(ids, recovery, now) matches Err(error) ==> error == EvidenceError::MissingDispatchIntent,
{
}

/// A round hands out, in the order of its list, exactly the occurrences that may be sent: not on the
/// target, with a round left of the budget, and after a first round only while the target's clock and
/// three seconds have not reached the end of the signed window. A round of a block leaves out what was
/// sent and has its outcome; a recovery round does not.
pub proof fn law_a_round_hands_out_what_may_be_sent(m: EvidenceModel, ids: Seq<OccurrenceId>, recovery: bool, now: u64)
    requires
        m.begin(ids, recovery, now) is Ok,
    ensures
        m.begin(ids, recovery, now)->Ok_0.1.map_values(|dispatch: DispatchModel| dispatch.id) == ids.filter(
            |id: OccurrenceId|
                {
                    let record = m.store.records[id.key_bytes()];
                    &&& record.target is None
                    &&& record.rounds < m.max_rounds
                    &&& record.rounds == 0 || record.transaction.valid_before is None
                        || record.transaction.valid_before->0 > m.progress.target_timestamp_ms / 1000 + 3
                    &&& recovery || record.in_flight || record.rounds == 0 || record.rounds != record.completed_round
                },
        ),
{
    let sent = |id: OccurrenceId|
        {
            let record = m.store.records[id.key_bytes()];
            &&& record.target is None
            &&& record.rounds < m.max_rounds
            &&& record.rounds == 0 || record.transaction.valid_before is None || record.transaction.valid_before->0
                > m.progress.target_timestamp_ms / 1000 + 3
            &&& recovery || record.in_flight || record.rounds == 0 || record.rounds != record.completed_round
        };
    lemma_handed_out(m, ids, recovery, now, ids.len(), |i: int| m.round_dispatch(ids[i], recovery, now), sent);
    assert(ids.take(ids.len() as int) =~= ids);
}

proof fn lemma_handed_out(
    m: EvidenceModel,
    ids: Seq<OccurrenceId>,
    recovery: bool,
    now: u64,
    n: nat,
    out: spec_fn(int) -> Seq<DispatchModel>,
    sent: spec_fn(OccurrenceId) -> bool,
)
    requires
        n <= ids.len(),
        out == (|i: int| m.round_dispatch(ids[i], recovery, now)),
        forall|id: OccurrenceId| #[trigger] sent(id) == (m.round_dispatch(id, recovery, now).len() == 1),
    ensures
        fold::gathered(n, out).map_values(|dispatch: DispatchModel| dispatch.id) == ids.take(n as int).filter(sent),
    decreases n,
{
    let name = |dispatch: DispatchModel| dispatch.id;
    reveal(Seq::filter);
    if n == 0 {
        assert(fold::gathered(n, out).map_values(name) =~= ids.take(0).filter(sent));
    } else {
        let before = (n - 1) as nat;
        lemma_handed_out(m, ids, recovery, now, before, out, sent);
        let (narrow, wide) = (ids.take(before as int), ids.take(n as int));
        assert(wide.drop_last() =~= narrow);
        assert(wide.last() == ids[n - 1]);
        let (a, b) = (fold::gathered(before, out), out(n - 1));
        assert((a + b).map_values(name) =~= a.map_values(name) + b.map_values(name));
        assert(sent(ids[n - 1]) == (b.len() == 1));
        if b.len() == 1 {
            assert(b.map_values(name) =~= seq![ids[n - 1]]);
            assert(wide.filter(sent) =~= narrow.filter(sent) + seq![ids[n - 1]]);
        } else {
            assert(b =~= Seq::empty());
            assert(a.map_values(name) + b.map_values(name) =~= a.map_values(name));
        }
    }
}

/// What is handed out is what is on record: the signed bytes and what they say, queued now, with where
/// the target stands now. Its delivery is uncertain if and only if an earlier round has no outcome or
/// the last attempt left it open.
pub proof fn law_a_dispatch_tells_what_is_on_record(
    m: EvidenceModel,
    ids: Seq<OccurrenceId>,
    recovery: bool,
    now: u64,
    k: int,
)
    requires
        m.begin(ids, recovery, now) is Ok,
        0 <= k < m.begin(ids, recovery, now)->Ok_0.1.len(),
    ensures
        ({
            let dispatch = m.begin(ids, recovery, now)->Ok_0.1[k];
            let record = m.occurrence(dispatch.id)->0;
            &&& m.occurrence(dispatch.id) is Some
            &&& dispatch.raw == record.raw
            &&& dispatch.transaction == record.transaction
            &&& dispatch.queued_at_ms == now
            &&& dispatch.target_observed == m.progress.target
            &&& dispatch.uncertain_delivery <==> record.rounds > record.completed_round || (record.attempts.len() > 0 && (
            record.attempts[record.attempts.len() - 1].disposition == Disposition::Ambiguous
                || record.attempts[record.attempts.len() - 1].disposition == Disposition::PossiblyIncluded))
        }),
{
    let queued = m.begin(ids, recovery, now)->Ok_0.1;
    let out = |i: int| m.round_dispatch(ids[i], recovery, now);
    assert(queued.contains(queued[k]));
    let at = fold::lemma_gathered_from(ids.len(), out, queued[k]);
    assert(m.occurrence(ids[at]) is Some);
    let found = out(at);
    let j = choose|j: int| 0 <= j < found.len() && found[j] == queued[k];
}

/// What a round leaves on record of an occurrence of its list. A round that was open is closed and
/// counted as interrupted. If the occurrence is handed out, a round more is on record, open, with the
/// time and where the target stands; if not, no round is added. Attempts and outcomes stay.
pub proof fn law_a_round_is_on_record_before_it_is_sent(
    m: EvidenceModel,
    ids: Seq<OccurrenceId>,
    recovery: bool,
    now: u64,
    i: int,
)
    requires
        m.healthy(),
        m.begin(ids, recovery, now) is Ok,
        0 <= i < ids.len(),
        recovery || m.occurrence(ids[i])->0.in_flight || m.occurrence(ids[i])->0.rounds == 0 || m.occurrence(ids[i])->0.rounds
            != m.occurrence(ids[i])->0.completed_round,
    ensures
        m.occurrence(ids[i]) is Some,
        m.settle(m.begin(ids, recovery, now)->Ok_0.0).occurrence(ids[i]) is Some,
        ({
            let before = m.occurrence(ids[i])->0;
            let after = m.settle(m.begin(ids, recovery, now)->Ok_0.0).occurrence(ids[i])->0;
            let sent = before.target is None && before.rounds < m.max_rounds && (before.rounds == 0
                || before.transaction.valid_before is None || before.transaction.valid_before->0
                > m.progress.target_timestamp_ms / 1000 + 3);
            &&& after.interrupted_rounds == before.interrupted_rounds + (if before.in_flight { 1int } else { 0int })
            &&& after.in_flight == sent
            &&& after.rounds == before.rounds + (if sent { 1int } else { 0int })
            &&& after.last_queued_at_ms == (if sent { now } else { before.last_queued_at_ms })
            &&& after.target_at_dispatch == (if sent { m.progress.target } else { before.target_at_dispatch })
            &&& after.completed_round == before.completed_round
            &&& after.attempts == before.attempts
            &&& after.queued_at_ms == before.queued_at_ms
            &&& after.source == before.source
            &&& after.transaction == before.transaction
            &&& after.raw == before.raw
            &&& after.source_receipt == before.source_receipt
            &&& after.target == before.target
        }),
{
    assert forall|j: int| 0 <= j < ids.len() implies m.occurrence(#[trigger] ids[j]) is Some by {}
    let part = |j: int| m.round_writes(ids[j], recovery, now);
    round_laws::lemma_round_filed(m, ids, recovery, now, ids.len(), part);
    let after = m.settle(m.begin(ids, recovery, now)->Ok_0.0);
    assert(after.store == m.store.write_all(fold::gathered(ids.len(), part)));
    let stored = m.store.records[ids[i].key_bytes()];
    assert(m.occurrence(ids[i]) is Some);
    assert(model::sound_record(stored));
    assert(EvidenceModel::takes_part(stored, recovery));
    assert(after.store.records[ids[i].key_bytes()] == m.begun(stored, now));
    assert(after.store.records.contains_key(ids[i].key_bytes()));
}

/// A round leaves alone the records of all occurrences that are not on its list.
pub proof fn law_a_round_touches_its_own_list_only(
    m: EvidenceModel,
    ids: Seq<OccurrenceId>,
    recovery: bool,
    now: u64,
    id: OccurrenceId,
)
    requires
        m.consistent(),
        m.begin(ids, recovery, now) is Ok,
        !ids.contains(id),
    ensures
        m.settle(m.begin(ids, recovery, now)->Ok_0.0).occurrence(id) == m.occurrence(id),
{
    let part = |i: int| m.round_writes(ids[i], recovery, now);
    let key = id.key_bytes();
    let after = m.settle(m.begin(ids, recovery, now)->Ok_0.0);
    assert(after.store == m.store.write_all(fold::gathered(ids.len(), part)));
    let holds = |at: StoreModel|
        at.records.contains_key(key) == m.store.records.contains_key(key) && at.records[key] == m.store.records[key];
    assert forall|i: int, at: StoreModel|
        0 <= i < ids.len() && #[trigger] holds(at) implies holds(#[trigger] at.write_all(part(i))) by {
        assert(m.occurrence(ids[i]) is Some);
        let stored = m.store.records[ids[i].key_bytes()];
        if EvidenceModel::takes_part(stored, recovery) {
            let record = m.begun(stored, now);
            assert(stored.id().key_bytes() == ids[i].key_bytes());
            assert(record.id() == stored.id());
            consistency::lemma_record_written(at, m, record);
            if ids[i].key_bytes() == key {
                state::law_keys_are_exact(ids[i], id);
                assert(ids.contains(ids[i]));
            }
        } else {
            assert(part(i) =~= Seq::empty());
            assert(at.write_all(part(i)) == at);
        }
    }
    consistency::lemma_kept(m.store, ids.len(), part, holds);
}

/// A round of a block leaves alone what was sent and has its outcome, however often it is begun.
pub proof fn law_a_block_round_repeats_nothing_that_was_answered(
    m: EvidenceModel,
    ids: Seq<OccurrenceId>,
    now: u64,
    id: OccurrenceId,
)
    requires
        m.consistent(),
        m.begin(ids, false, now) is Ok,
        m.occurrence(id) matches Some(record) && !record.in_flight && record.rounds > 0 && record.rounds
            == record.completed_round,
    ensures
        m.settle(m.begin(ids, false, now)->Ok_0.0).occurrence(id) == m.occurrence(id),
{
    round_laws::law_a_block_round_skips_settled_occurrences(m, ids, now, id);
}

} // verus!
