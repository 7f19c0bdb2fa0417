//! Retention: what is removed once it is old and clean.

use crate::evidence::model;
use crate::evidence::model::EvidenceModel;
use crate::evidence::{EvidenceError, EvidenceStore};
use crate::evidence::retention_laws;
use crate::fold;
use crate::state;
use crate::state::OccurrenceId;
use crate::store;
use crate::store::{DiskUsage, Write};
use crate::table;
use vstd::prelude::*;

verus! {

/// A sweep that stopped at the first entry that is not old enough has seen all that are.
proof fn lemma_below(keys: Seq<Seq<u8>>, floor: u64, n: nat)
    requires
        n <= keys.len(),
        forall|i: int| 0 <= i < n ==> EvidenceModel::old_enough(#[trigger] keys[i], floor),
        n == keys.len() || !EvidenceModel::old_enough(keys[n as int], floor),
    ensures
        EvidenceModel::below(keys, floor) == n,
    decreases n,
{
    if n > 0 {
        assert(EvidenceModel::old_enough(keys[0], floor));
        let rest = keys.drop_first();
        assert forall|i: int| 0 <= i < n - 1 implies EvidenceModel::old_enough(#[trigger] rest[i], floor) by {
            assert(rest[i] == keys[i + 1]);
        }
        lemma_below(rest, floor, (n - 1) as nat);
    }
}

/// The entries that a sweep counts are old enough.
pub proof fn lemma_below_all(keys: Seq<Seq<u8>>, floor: u64, at: int)
    requires
        0 <= at < EvidenceModel::below(keys, floor),
    ensures
        at < keys.len(),
        EvidenceModel::old_enough(keys[at], floor),
    decreases keys.len(),
{
    if at > 0 {
        lemma_below_all(keys.drop_first(), floor, at - 1);
    }
}

impl EvidenceStore {
    /// Removes the unmatched target occurrences below the floor and tells how many.
    fn retire_unmatched(&self, writes: &mut Vec<Write>, retain_blocks: u64) -> (r: Result<
        u64,
        EvidenceError,
    >)
        requires
            self.wf(),
        ensures
            if EvidenceModel::unreadable(self@.unmatched_keys(), self@.unmatched_floor(retain_blocks)) {
                r == Err::<u64, EvidenceError>(EvidenceError::InvalidUnmatchedIndex)
            } else {
                &&& r matches Ok(count) && count == self@.retired_unmatched(retain_blocks)
                &&& store::writes_view(final(writes)@) == store::writes_view(old(writes)@)
                    + fold::gathered(
                    self@.retired_unmatched(retain_blocks),
                    |i: int| self@.forget_unmatched(self@.unmatched_keys()[i]),
                )
            },
    {
        let floor: u64 = self.progress.target.height.saturating_sub(retain_blocks);
        let found = self.store.unmatched_by_height_keys(&[], model::SWEEP);
        let ghost keys = self@.unmatched_keys();
        let ghost before = store::writes_view(writes@);
        let ghost part = |i: int| self@.forget_unmatched(keys[i]);
        proof {
            assert(Seq::<u8>::empty() =~= (&[])@);
            self.store.lemma_listings();
            table::lemma_under_prefix(self@.store.unmatched_by_height, Seq::empty(), model::SWEEP as nat);
            assert(before + fold::gathered(0, part) =~= before);
            assert(keys.len() == found@.len());
        }
        let mut stop = false;
        let mut i: usize = 0;
        while !stop && i < found.len()
            invariant
                i <= found@.len() <= model::SWEEP,
                table::key_views(found@) == keys,
                keys.len() == found@.len(),
                keys == self@.unmatched_keys(),
                floor == self@.unmatched_floor(retain_blocks),
                self.wf(),
                forall|j: int| 0 <= j < keys.len() ==> self@.store.unmatched_by_height.contains_key(#[trigger] keys[j]),
                forall|j: int| 0 <= j < i ==> EvidenceModel::old_enough(#[trigger] keys[j], floor),
                stop ==> i < found@.len() && !EvidenceModel::old_enough(keys[i as int], floor) && state::decoded(keys[i as int]) is Some,
                part == (|i: int| self@.forget_unmatched(keys[i])),
                store::writes_view(writes@) == before + fold::gathered(i as nat, part),
            decreases found@.len() - i + (if stop { 0int } else { 1int }),
        {
            let location = &found[i];
            assert(location@ == keys[i as int]);
            let target = match OccurrenceId::decode(location.as_slice()) {
                Some(target) => target,
                None => {
                    proof {
                        lemma_below(keys, floor, i as nat);
                    }
                    return Err(EvidenceError::InvalidUnmatchedIndex);
                },
            };
            if target.source_height >= floor {
                stop = true;
            } else {
                if let Some(key) = self.store.unmatched_by_height(location.as_slice()) {
                    let unmatched = Write::Unmatched { key: key.clone(), value: None };
                    let placed = Write::UnmatchedByHeight { key: location.clone(), value: None };
                    let ghost written = store::writes_view(writes@);
                    proof {
                        assert(seq![unmatched@, placed@] =~= part(i as int));
                    }
                    writes.push(unmatched);
                    writes.push(placed);
                    proof {
                        assert(store::writes_view(writes@) =~= written + seq![unmatched@, placed@]);
                        assert(store::writes_view(writes@) =~= before + (fold::gathered(i as nat, part) + part(i as int)));
                    }
                }
                i += 1;
            }
        }
        proof {
            lemma_below(keys, floor, i as nat);
        }
        Ok(i as u64)
    }

    /// Removes the clean inclusions below the floor and tells how many.
    fn retire_clean(&self, writes: &mut Vec<Write>, retain_blocks: u64) -> (r: Result<
        u64,
        EvidenceError,
    >)
        requires
            self.wf(),
        ensures
            match fold::first_error(self@.retired_clean(retain_blocks), self@.clean_error(self@.clean_keys())) {
                Some(error) => r == Err::<u64, EvidenceError>(error),
                None => if EvidenceModel::unreadable(self@.clean_keys(), self@.clean_floor(retain_blocks)) {
                    r == Err::<u64, EvidenceError>(EvidenceError::InvalidCleanIndex)
                } else {
                    &&& r matches Ok(count) && count == self@.retired_clean(retain_blocks)
                    &&& store::writes_view(final(writes)@) == store::writes_view(old(writes)@)
                        + fold::gathered(
                        self@.retired_clean(retain_blocks),
                        |i: int| self@.forget_clean(self@.clean_keys()[i]),
                    )
                },
            },
    {
        let floor: u64 = self.progress.source.height.saturating_sub(retain_blocks);
        let found = self.store.clean_keys(&[], model::SWEEP);
        let ghost keys = self@.clean_keys();
        let ghost check = self@.clean_error(keys);
        let ghost total = self@.retired_clean(retain_blocks);
        let ghost before = store::writes_view(writes@);
        let ghost part = |i: int| self@.forget_clean(keys[i]);
        proof {
            assert(Seq::<u8>::empty() =~= (&[])@);
            self.store.lemma_listings();
            table::lemma_under_prefix(self@.store.clean, Seq::empty(), model::SWEEP as nat);
            assert(before + fold::gathered(0, part) =~= before);
            assert(keys.len() == found@.len());
        }
        let mut stop = false;
        let mut i: usize = 0;
        while !stop && i < found.len()
            invariant
                i <= found@.len() <= model::SWEEP,
                table::key_views(found@) == keys,
                keys.len() == found@.len(),
                keys == self@.clean_keys(),
                floor == self@.clean_floor(retain_blocks),
                total == EvidenceModel::below(keys, floor),
                check == self@.clean_error(keys),
                self.wf(),
                forall|j: int| 0 <= j < i ==> EvidenceModel::old_enough(#[trigger] keys[j], floor),
                forall|j: int| 0 <= j < i ==> (#[trigger] check(j)) is None,
                stop ==> i < found@.len() && !EvidenceModel::old_enough(keys[i as int], floor) && state::decoded(keys[i as int]) is Some,
                part == (|i: int| self@.forget_clean(keys[i])),
                store::writes_view(writes@) == before + fold::gathered(i as nat, part),
            decreases found@.len() - i + (if stop { 0int } else { 1int }),
        {
            let key = &found[i];
            assert(key@ == keys[i as int]);
            let ghost checked = check(i as int);
            let id = match OccurrenceId::decode(key.as_slice()) {
                Some(id) => id,
                None => {
                    proof {
                        lemma_below(keys, floor, i as nat);
                        fold::lemma_no_error(total, check);
                    }
                    return Err(EvidenceError::InvalidCleanIndex);
                },
            };
            if id.source_height >= floor {
                stop = true;
            } else {
                proof {
                    lemma_below_reaches(keys, floor, i as nat);
                    if check(i as int) is Some {
                        fold::lemma_error_at(total, check, i as int);
                    }
                }
                let record = match self.store.record(key.as_slice()) {
                    Some(record) => record,
                    None => {
                        return Err(EvidenceError::MissingCleanOccurrence);
                    },
                };
                if !record.clean_inclusion() {
                    return Err(EvidenceError::InconsistentCleanIndex);
                }
                let forgotten = Write::Record { key: key.clone(), value: None };
                let unhashed = Write::Hash {
                    key: state::index_key_vec(record.transaction.hash, id),
                    present: false,
                };
                let unmarked = Write::Clean { key: key.clone(), present: false };
                let ghost written = store::writes_view(writes@);
                proof {
                    assert(seq![forgotten@, unhashed@, unmarked@] =~= part(i as int));
                }
                writes.push(forgotten);
                writes.push(unhashed);
                writes.push(unmarked);
                proof {
                    assert(store::writes_view(writes@) =~= written + seq![forgotten@, unhashed@, unmarked@]);
                    assert(store::writes_view(writes@) =~= before + (fold::gathered(i as nat, part) + part(i as int)));
                }
                i += 1;
            }
        }
        proof {
            lemma_below(keys, floor, i as nat);
            fold::lemma_no_error(total, check);
        }
        Ok(i as u64)
    }

    /// Removes clean inclusions older than `retain_blocks` source blocks and target occurrences
    /// that stayed unmatched for `retain_blocks` target blocks. Anomalies are never pruned. The
    /// room that is left is checked last, when what could go has gone.
    pub fn prune(&mut self, retain_blocks: u64, usage: DiskUsage) -> (r: Result<(), EvidenceError>)
        requires
            old(self).wf(),
            old(self)@.progress.archived_unmatched + old(self)@.retired_unmatched(retain_blocks) <= u64::MAX,
            old(self)@.progress.archived_included + old(self)@.retired_clean(retain_blocks) <= u64::MAX,
        ensures
            final(self).wf(),
            if retain_blocks == 0 {
                r is Ok && final(self)@ == old(self)@
            } else {
                match old(self)@.retire(retain_blocks) {
                    Err(error) => r == Err::<(), EvidenceError>(error) && final(self)@ == old(self)@,
                    Ok(commit) => {
                        &&& final(self)@ == old(self)@.settle(commit)
                        &&& r == (if old(self)@.limits.admits_spec(usage) {
                            Ok::<(), EvidenceError>(())
                        } else {
                            Err(EvidenceError::DiskLimit)
                        })
                    },
                }
            },
            old(self)@.healthy() ==> final(self)@.healthy(),
    {
        if retain_blocks == 0 {
            return Ok(());
        }
        let mut writes: Vec<Write> = Vec::new();
        let mut progress = self.progress;
        let unmatched: u64 = match self.retire_unmatched(&mut writes, retain_blocks) {
            Ok(count) => count,
            Err(error) => {
                return Err(error);
            },
        };
        let clean: u64 = match self.retire_clean(&mut writes, retain_blocks) {
            Ok(count) => count,
            Err(error) => {
                return Err(error);
            },
        };
        if unmatched > 0 || clean > 0 {
            progress.archived_unmatched = progress.archived_unmatched + unmatched;
            progress.archived_included = progress.archived_included + clean;
            assert(store::writes_view(writes@) =~= fold::gathered(
                self@.retired_unmatched(retain_blocks),
                |i: int| self@.forget_unmatched(self@.unmatched_keys()[i]),
            ) + fold::gathered(
                self@.retired_clean(retain_blocks),
                |i: int| self@.forget_clean(self@.clean_keys()[i]),
            ));
            proof {
                if self@.healthy() {
                    retention_laws::law_anomalies_are_never_pruned(self@, retain_blocks);
                }
            }
            self.commit(writes, Some(progress));
        }
        if self.limits.admits(usage) {
            Ok(())
        } else {
            Err(EvidenceError::DiskLimit)
        }
    }

    /// Whether any occurrence is not seen on the target yet.
    pub fn has_pending(&self) -> (r: bool)
        requires
            self.wf(),
        ensures
            r <==> exists|key: Seq<u8>| #[trigger] self@.store.pending.contains_key(key),
    {
        let found = self.store.pending_keys(&[], 1);
        let ghost keys = table::under_prefix(self@.store.pending, Seq::empty(), 1);
        proof {
            assert(Seq::<u8>::empty() =~= (&[])@);
            self.store.lemma_listings();
            table::lemma_under_prefix(self@.store.pending, Seq::empty(), 1);
            assert(keys.len() == found@.len());
            if keys.len() > 0 {
                assert(self@.store.pending.contains_key(keys[0]));
            }
            if exists|key: Seq<u8>| #[trigger] self@.store.pending.contains_key(key) {
                let key = choose|key: Seq<u8>| #[trigger] self@.store.pending.contains_key(key);
                assert(key.take(0) =~= Seq::empty());
                if keys.len() < 1 {
                    assert(keys.contains(key));
                }
            }
        }
        found.len() > 0
    }

    /// How many target occurrences are unmatched, as far as one sweep reads.
    pub fn unmatched_count(&self) -> (r: usize)
        requires
            self.wf(),
        ensures
            r == self@.unmatched_keys().len(),
    {
        let found = self.store.unmatched_by_height_keys(&[], model::SWEEP);
        assert(Seq::<u8>::empty() =~= (&[])@);
        assert(table::key_views(found@).len() == found@.len());
        found.len()
    }
}

/// An entry that is old enough, with all before it, is among those that a sweep counts.
pub proof fn lemma_below_reaches(keys: Seq<Seq<u8>>, floor: u64, n: nat)
    requires
        n < keys.len(),
        forall|i: int| 0 <= i < n ==> EvidenceModel::old_enough(#[trigger] keys[i], floor),
        EvidenceModel::old_enough(keys[n as int], floor),
    ensures
        n < EvidenceModel::below(keys, floor),
    decreases n,
{
    if n > 0 {
        assert(EvidenceModel::old_enough(keys[0], floor));
        let rest = keys.drop_first();
        assert forall|i: int| 0 <= i < n - 1 implies EvidenceModel::old_enough(#[trigger] rest[i], floor) by {
            assert(rest[i] == keys[i + 1]);
        }
        lemma_below_reaches(rest, floor, (n - 1) as nat);
    }
}

} // verus!
