//! Submission rounds: what is handed out and how its outcomes are committed.

use crate::evidence;
use crate::evidence::model;
use crate::evidence::round_laws;
use crate::evidence::{Completed, Dispatch, EvidenceError, EvidenceStore};
use crate::fold;
use crate::state;
use crate::state::{BlockCursor, Disposition, Occurrence, OccurrenceId};
use crate::store;
use crate::store::{Write, WriteModel};
use crate::table;
use crate::table::Table;
use vstd::prelude::*;

verus! {

impl EvidenceStore {
    /// Starts a submission round. A block round (`recovery == false`) covers every occurrence
    /// of one source block: never-dispatched and interrupted intents are (re)queued, while
    /// occurrences that already have a committed outcome are left to recovery. A recovery round
    /// requeues exactly the ids chosen by `recovery_candidates`.
    pub fn begin_round_at(
        &mut self,
        ids: Vec<OccurrenceId>,
        recovery: bool,
        now: u64,
    ) -> (r: Result<Vec<Dispatch>, EvidenceError>)
        requires
            old(self).wf(),
            old(self)@.countable(ids@),
        ensures
            final(self).wf(),
            evidence::ran(
                old(self)@,
                final(self)@,
                old(self)@.begin(ids@, recovery, now),
                (match r {
                    Ok(queued) => Ok(evidence::dispatches_view(queued@)),
                    Err(error) => Err(error),
                }),
            ),
            old(self)@.healthy() ==> final(self)@.healthy(),
    {
        let mut writes: Vec<Write> = Vec::new();
        let mut queued: Vec<Dispatch> = Vec::new();
        let ghost part = |i: int| self@.round_writes(ids@[i], recovery, now);
        let ghost out = |i: int| self@.round_dispatch(ids@[i], recovery, now);
        assert(store::writes_view(writes@) =~= fold::gathered(0, part));
        assert(evidence::dispatches_view(queued@) =~= fold::gathered(0, out));
        let mut i: usize = 0;
        while i < ids.len()
            invariant
                i <= ids@.len(),
                self.wf(),
                self@.countable(ids@),
                *self == *old(self),
                forall|j: int| 0 <= j < i ==> self@.occurrence(#[trigger] ids@[j]) is Some,
                part == (|i: int| self@.round_writes(ids@[i], recovery, now)),
                out == (|i: int| self@.round_dispatch(ids@[i], recovery, now)),
                store::writes_view(writes@) == fold::gathered(i as nat, part),
                evidence::dispatches_view(queued@) == fold::gathered(i as nat, out),
            decreases ids@.len() - i,
        {
            let id = ids[i];
            let mut record = match self.occurrence(id) {
                Some(record) => record,
                None => {
                    return Err(EvidenceError::MissingDispatchIntent);
                },
            };
            let ghost stored = record@;
            assert(stored == self@.store.records[id.key_bytes()]);
            assert(self@.occurrence(ids@[i as int]) == Some(stored));
            let ghost written = store::writes_view(writes@);
            let ghost handed = evidence::dispatches_view(queued@);
            let settled = !record.in_flight && record.rounds > 0 && record.rounds
                == record.completed_round;
            if recovery || !settled {
                let mut uncertain = record.rounds > record.completed_round;
                if record.attempts.len() > 0 {
                    let last = &record.attempts[record.attempts.len() - 1];
                    assert(last@ == stored.attempts.last());
                    uncertain = uncertain || last.disposition == Disposition::Ambiguous
                        || last.disposition == Disposition::PossiblyIncluded;
                }
                if record.in_flight {
                    record.interrupted_rounds = record.interrupted_rounds + 1;
                }
                record.in_flight = false;
                assert(record@ =~= model::interrupted(stored));
                let expired = record.rounds > 0 && self.expired(&record);
                if record.target.is_none() && record.rounds < self.max_rounds && !expired {
                    record.rounds = record.rounds + 1;
                    record.in_flight = true;
                    record.last_queued_at_ms = now;
                    record.target_at_dispatch = self.progress.target;
                    let dispatch = Dispatch {
                        id,
                        transaction: record.transaction,
                        raw: record.raw.clone(),
                        queued_at_ms: now,
                        target_observed: self.progress.target,
                        uncertain_delivery: uncertain,
                    };
                    assert(seq![dispatch@] =~= self@.round_dispatch(id, recovery, now));
                    queued.push(dispatch);
                    assert(evidence::dispatches_view(queued@) =~= handed + seq![dispatch@]);
                } else {
                    assert(handed + self@.round_dispatch(id, recovery, now) =~= handed);
                }
                assert(record@ =~= self@.begun(stored, now));
                self.put_record(&mut writes, &record);
            } else {
                assert(written + self@.round_writes(id, recovery, now) =~= written);
                assert(handed + self@.round_dispatch(id, recovery, now) =~= handed);
            }
            i += 1;
        }
        assert(forall|j: int| 0 <= j < ids@.len() ==> self@.occurrence(#[trigger] ids@[j]) is Some);
        proof {
            if self@.healthy() {
                round_laws::law_rounds_are_bounded(self@, ids@, recovery, now);
            }
        }
        self.commit(writes, None);
        Ok(queued)
    }

    /// Starts a submission round at the machine's time.
    pub fn begin_round(
        &mut self,
        ids: Vec<OccurrenceId>,
        recovery: bool,
    ) -> (r: Result<Vec<Dispatch>, EvidenceError>)
        requires
            old(self).wf(),
            old(self)@.countable(ids@),
        ensures
            final(self).wf(),
            exists|now: u64|
                evidence::ran(
                    old(self)@,
                    final(self)@,
                    #[trigger] old(self)@.begin(ids@, recovery, now),
                    (match r {
                        Ok(queued) => Ok(evidence::dispatches_view(queued@)),
                        Err(error) => Err(error),
                    }),
                ),
            old(self)@.healthy() ==> final(self)@.healthy(),
    {
        self.begin_round_at(ids, recovery, crate::now_ms())
    }

    /// Commits the outcomes of a round and, where they finish a source block, moves the source
    /// cursor to it in the same commit.
    pub fn complete_round(
        &mut self,
        completed: Vec<Completed>,
        source: Option<BlockCursor>,
    ) -> (r: Result<(), EvidenceError>)
        requires
            old(self).wf(),
            source is Some ==> old(self)@.progress.source.height < u64::MAX,
        ensures
            final(self).wf(),
            evidence::ran(
                old(self)@,
                final(self)@,
                old(self)@.complete(evidence::completions_view(completed@), source),
                r,
            ),
            old(self)@.healthy() ==> final(self)@.healthy(),
    {
        let ghost said = evidence::completions_view(completed@);
        let ghost check = self@.completion_error(said);
        let ghost part = |i: int| self@.record_writes(self@.outcome_record(said[i]));
        let mut writes: Vec<Write> = Vec::new();
        let mut progress = self.progress;
        let mut records: Table<Occurrence> = Table::new();
        assert(store::writes_view(writes@) =~= fold::gathered(0, part));
        let mut i: usize = 0;
        while i < completed.len()
            invariant
                i <= completed@.len(),
                said == evidence::completions_view(completed@),
                self.wf(),
                *self == *old(self),
                check == self@.completion_error(said),
                part == (|i: int| self@.record_writes(self@.outcome_record(said[i]))),
                forall|j: int| 0 <= j < i ==> (#[trigger] check(j)) is None,
                progress == self@.dispatched(said, i as nat),
                store::writes_view(writes@) == fold::gathered(i as nat, part),
                records.wf(),
                forall|j: int| 0 <= j < i ==> {
                    &&& records@.contains_key((#[trigger] said[j]).id.key_bytes())
                    &&& records@[said[j].id.key_bytes()] == self@.outcome_record(said[j])
                },
                forall|id: OccurrenceId| #[trigger] records@.contains_key(id.key_bytes()) ==> exists|j: int|
                    0 <= j < i && (#[trigger] said[j]).id == id,
            decreases completed@.len() - i,
        {
            let id = completed[i].id;
            assert(said[i as int] == completed@[i as int]@);
            let ghost checked = check(i as int);
            proof {
                if check(i as int) is Some {
                    fold::lemma_error_at(said.len(), check, i as int);
                }
            }
            let mut record = match self.occurrence(id) {
                Some(record) => record,
                None => {
                    return Err(EvidenceError::MissingDispatchRecord);
                },
            };
            let ghost stored = record@;
            if !record.in_flight {
                return Err(EvidenceError::CompletedWithoutIntent);
            }
            let count: usize = completed[i].attempts.len();
            if count == 0 {
                return Err(EvidenceError::CompletedWithoutEvidence);
            }
            if count > model::MAX_ATTEMPTS || record.attempts.len() > model::MAX_ATTEMPTS - count {
                return Err(EvidenceError::AttemptBound);
            }
            let last = &completed[i].attempts[count - 1];
            assert(last@ == said[i as int].attempts.last());
            if last.completed_at_ms > progress.last_dispatch_ms {
                progress.last_dispatch_ms = last.completed_at_ms;
            }
            progress.last_dispatch_target = record.target_at_dispatch;
            record.in_flight = false;
            record.completed_round = record.rounds;
            let mut attempts = completed[i].attempts.clone();
            assert(state::attempts_view(attempts@) =~= said[i as int].attempts);
            record.attempts.append(&mut attempts);
            assert(record@.attempts =~= stored.attempts + said[i as int].attempts);
            assert(record@ =~= self@.outcome_record(said[i as int]));
            let key = id.key_vec();
            if records.get(key.as_slice()).is_some() {
                return Err(EvidenceError::DuplicateCompletion);
            }
            proof {
                assert forall|j: int| 0 <= j < i implies (#[trigger] said[j]).id != id by {
                    assert(records@.contains_key(said[j].id.key_bytes()));
                }
            }
            self.put_record(&mut writes, &record);
            let ghost before = records@;
            records.put(key, record);
            proof {
                assert forall|j: int| 0 <= j < i implies records@.contains_key((#[trigger] said[j]).id.key_bytes()) && records@[said[j].id.key_bytes()] == self@.outcome_record(said[j]) by {
                    state::law_keys_are_exact(said[j].id, id);
                }
                assert forall|other: OccurrenceId| #[trigger] records@.contains_key(other.key_bytes()) implies exists|j: int|
                    0 <= j < i + 1 && (#[trigger] said[j]).id == other by {
                    state::law_keys_are_exact(other, id);
                    if other == id {
                        assert(said[i as int].id == other);
                    } else {
                        assert(before.contains_key(other.key_bytes()));
                    }
                }
            }
            i += 1;
        }
        proof {
            fold::lemma_no_error(said.len(), check);
        }
        if let Some(source) = source {
            if let Err(error) = self.check_advance(&records, Ghost(said), source) {
                return Err(error);
            }
            let receipts: u64 = progress.source_receipts.height;
            progress.source = source;
            if receipts >= source.height {
                let write = Write::Block {
                    key: Self::height_key_vec(source.height),
                    value: None,
                };
                proof {
                    evidence::lemma_pushed(writes@, write);
                }
                writes.push(write);
            }
        }
        proof {
            if self@.healthy() {
                round_laws::law_attempts_are_bounded(self@, said, source);
            }
        }
        self.commit(writes, Some(progress));
        Ok(())
    }

    /// The occurrences that the next recovery round takes up. Entries of the recovery index that
    /// left the window, or that were written under a different budget, are removed here so that
    /// a large failed prefix cannot permanently starve later recovery.
    pub fn recovery_candidates(&mut self) -> (r: Result<Vec<OccurrenceId>, EvidenceError>)
        requires
            old(self).wf(),
        ensures
            final(self).wf(),
            evidence::ran(
                old(self)@,
                final(self)@,
                old(self)@.recover(),
                (match r {
                    Ok(due) => Ok(due@),
                    Err(error) => Err(error),
                }),
            ),
            old(self)@.healthy() ==> final(self)@.healthy(),
    {
        let floor: u64 = self.progress.source.height.saturating_sub(model::RECOVERY_BLOCKS);
        let end = OccurrenceId {
            source_height: self.progress.source.height,
            source_index: u32::MAX,
        };
        let found = self.store.recovery_keys(&[], end.key_vec().as_slice(), model::SWEEP);
        let ghost keys = self@.recovery_keys();
        let ghost check = self@.recovery_error(keys);
        let ghost stale = |i: int|
            if self@.recovery_stale(keys[i]) {
                seq![WriteModel::Recovery { key: keys[i], present: false }]
            } else {
                Seq::empty()
            };
        let ghost due = |i: int|
            if self@.recovery_due(keys[i]) {
                seq![state::decoded(keys[i]).unwrap()]
            } else {
                Seq::empty()
            };
        let mut writes: Vec<Write> = Vec::new();
        let mut candidates: Vec<OccurrenceId> = Vec::new();
        proof {
            assert(Seq::<u8>::empty() =~= (&[])@);
            assert(table::key_views(found@) == keys);
            assert(store::writes_view(writes@) =~= fold::gathered(0, stale));
            assert(candidates@ =~= fold::gathered(0, due));
        }
        let mut i: usize = 0;
        while i < found.len()
            invariant
                i <= found@.len(),
                table::key_views(found@) == keys,
                self.wf(),
                *self == *old(self),
                floor == self@.recovery_floor(),
                keys == self@.recovery_keys(),
                check == self@.recovery_error(keys),
                forall|j: int| 0 <= j < i ==> (#[trigger] check(j)) is None,
                stale == (|i: int|
                    if self@.recovery_stale(keys[i]) {
                        seq![WriteModel::Recovery { key: keys[i], present: false }]
                    } else {
                        Seq::empty()
                    }),
                due == (|i: int|
                    if self@.recovery_due(keys[i]) {
                        seq![state::decoded(keys[i]).unwrap()]
                    } else {
                        Seq::empty()
                    }),
                store::writes_view(writes@) == fold::gathered(i as nat, stale),
                candidates@ == fold::gathered(i as nat, due),
            decreases found@.len() - i,
        {
            let key = &found[i];
            assert(key@ == keys[i as int]);
            let ghost checked = check(i as int);
            let ghost written = store::writes_view(writes@);
            let ghost listed = candidates@;
            proof {
                if check(i as int) is Some {
                    fold::lemma_error_at(keys.len(), check, i as int);
                }
            }
            let id = match OccurrenceId::decode(key.as_slice()) {
                Some(id) => id,
                None => {
                    return Err(EvidenceError::InvalidRecoveryIndex);
                },
            };
            let record = match self.store.record(key.as_slice()) {
                Some(record) => record,
                None => {
                    return Err(EvidenceError::MissingRecoveryOccurrence);
                },
            };
            assert(self@.store.records[id.key_bytes()] == record@);
            if record.in_flight {
                // An interrupted intent must be closed by `begin_round` even when no further
                // round is available; otherwise it would read as in flight forever.
                candidates.push(id);
                assert(candidates@ =~= listed + due(i as int));
                assert(written + stale(i as int) =~= written);
            } else if id.source_height < floor || !self.recoverable(record) {
                let write = Write::Recovery { key: key.clone(), present: false };
                proof {
                    evidence::lemma_pushed(writes@, write);
                    assert(written.push(write@) =~= written + stale(i as int));
                    assert(listed + due(i as int) =~= listed);
                }
                writes.push(write);
            } else {
                // State-dependent rejections wait for observed target finality to move past the
                // head sampled at the rejected submission; ambiguous deliveries retry immediately.
                let rejected = record.attempts.len() > 0 && record.attempts[record.attempts.len()
                    - 1].disposition == Disposition::Rejected;
                let awaiting_head = record.rounds == record.completed_round && rejected
                    && self.progress.target.height <= record.target_at_dispatch.height;
                assert(record@.attempts.len() > 0 ==> record@.attempts.last()
                    == record.attempts@.last()@);
                assert(awaiting_head == self@.awaiting_head(record@));
                if !awaiting_head {
                    candidates.push(id);
                    assert(candidates@ =~= listed + due(i as int));
                } else {
                    assert(listed + due(i as int) =~= listed);
                }
                assert(written + stale(i as int) =~= written);
            }
            i += 1;
        }
        proof {
            fold::lemma_no_error(keys.len(), check);
        }
        proof {
            if self@.healthy() {
                round_laws::law_a_recovery_sweep_keeps_every_record(self@);
            }
        }
        if writes.len() > 0 {
            assert(store::writes_view(writes@).len() > 0);
            self.commit(writes, None);
        }
        Ok(candidates)
    }

    /// Starts a recovery round for what is due, if anything is.
    pub fn begin_recovery_at(&mut self, now: u64) -> (r: Result<Vec<Dispatch>, EvidenceError>)
        requires
            old(self).wf(),
            old(self)@.recover() matches Ok((commit, due)) ==> old(self)@.countable(due),
        ensures
            final(self).wf(),
            old(self)@.healthy() ==> final(self)@.healthy(),
            match old(self)@.recover() {
                Err(error) => r == Err::<Vec<Dispatch>, EvidenceError>(error) && final(self)@ == old(self)@,
                Ok((commit, due)) => {
                    let swept = old(self)@.settle(commit);
                    if due.len() == 0 {
                        r matches Ok(queued) && queued@.len() == 0 && final(self)@ == swept
                    } else {
                        evidence::ran(
                            swept,
                            final(self)@,
                            swept.begin(due, true, now),
                            (match r {
                                Ok(queued) => Ok(evidence::dispatches_view(queued@)),
                                Err(error) => Err(error),
                            }),
                        )
                    }
                },
            },
    {
        let due = match self.recovery_candidates() {
            Ok(due) => due,
            Err(error) => {
                return Err(error);
            },
        };
        if due.len() == 0 {
            return Ok(Vec::new());
        }
        proof {
            round_laws::lemma_a_sweep_keeps_the_records(old(self)@);
        }
        self.begin_round_at(due, true, now)
    }

    /// Whether the source cursor may move to a block: the block is the next one, it was prepared
    /// with this hash, and all its submissions have an outcome.
    fn check_advance(
        &self,
        records: &Table<Occurrence>,
        Ghost(said): Ghost<Seq<model::CompletedModel>>,
        source: BlockCursor,
    ) -> (r: Result<(), EvidenceError>)
        requires
            self.wf(),
            self@.progress.source.height < u64::MAX,
            records.wf(),
            forall|j: int| 0 <= j < said.len() ==> {
                &&& records@.contains_key((#[trigger] said[j]).id.key_bytes())
                &&& records@[said[j].id.key_bytes()] == self@.outcome_record(said[j])
            },
            forall|id: OccurrenceId| #[trigger] records@.contains_key(id.key_bytes()) ==> exists|j: int|
                0 <= j < said.len() && (#[trigger] said[j]).id == id,
        ensures
            r == (match self@.advance_error(said, source) {
                Some(error) => Err::<(), EvidenceError>(error),
                None => Ok(()),
            }),
    {
        if source.height != self.progress.source.height + 1 {
            return Err(EvidenceError::SourceAdvanceNotContiguous);
        }
        let block = match self.source_block(source.height) {
            Some(block) => block,
            None => {
                return Err(EvidenceError::NoDurableIntent);
            },
        };
        if block.cursor != source {
            return Err(EvidenceError::CompletionHashMismatch);
        }
        let ghost check = self@.unfinished(said, block@.occurrences);
        let mut i: usize = 0;
        while i < block.occurrences.len()
            invariant
                i <= block.occurrences@.len(),
                self.wf(),
                records.wf(),
                check == self@.unfinished(said, block@.occurrences),
                forall|j: int| 0 <= j < i ==> (#[trigger] check(j)) is None,
                self@.progress.source.height + 1 == source.height,
                model::lookup(self@.store.blocks, model::height_key(source.height)) == Some(block@),
                block@.cursor == source,
                forall|j: int| 0 <= j < said.len() ==> {
                    &&& records@.contains_key((#[trigger] said[j]).id.key_bytes())
                    &&& records@[said[j].id.key_bytes()] == self@.outcome_record(said[j])
                },
                forall|id: OccurrenceId| #[trigger] records@.contains_key(id.key_bytes()) ==> exists|j: int|
                    0 <= j < said.len() && (#[trigger] said[j]).id == id,
            decreases block.occurrences@.len() - i,
        {
            let id = block.occurrences[i];
            let key = id.key_vec();
            let ghost checked = check(i as int);
            proof {
                if check(i as int) is Some {
                    fold::lemma_error_at(block@.occurrences.len(), check, i as int);
                }
            }
            let found = match records.get(key.as_slice()) {
                Some(record) => Some(record),
                None => self.store.record(key.as_slice()),
            };
            let record = match found {
                Some(record) => record,
                None => {
                    return Err(EvidenceError::MissingSourceOccurrence);
                },
            };
            assert(self@.after_outcomes(said, id) == Some(record@));
            if record.in_flight || !(record.rounds > 0 || record.target.is_some()) {
                return Err(EvidenceError::UnfinishedSubmissions);
            }
            i += 1;
        }
        proof {
            fold::lemma_no_error(block@.occurrences.len(), check);
        }
        Ok(())
    }
}

} // verus!
