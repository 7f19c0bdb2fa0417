//! Opening and reading the evidence, told by what it holds.

use crate::bytes;
use crate::evidence;
use crate::evidence::model;
use crate::evidence::model::{EvidenceModel, Outcome};
use crate::evidence::retention;
use crate::evidence::retention_laws;
use crate::evidence::submission_laws;
use crate::evidence::{EvidenceError, Progress};
use crate::fold;
use crate::state;
use crate::state::{BlockCursor, OccurrenceId, ReplayIdentity};
use crate::store::{StoreLimits, StoreModel};
use crate::table;
use crate::words;
use crate::words::B256;
use vstd::prelude::*;

verus! {

// Opening.

/// A store is opened for writing if and only if its checkpoint leaves room for a block, a round is
/// allowed, and it is new or was made, in this layout, for the same replay. It is then of that replay,
/// with the budget and the limits that were asked for.
pub proof fn law_a_store_is_opened_for_its_own_replay(
    store: StoreModel,
    identity: ReplayIdentity,
    max_rounds: u32,
    limits: StoreLimits,
    now: u64,
)
    ensures
        ({
            let opened = EvidenceModel::opened(store, identity, max_rounds, limits, now);
            let (last, none) = (identity.checkpoint_height == u64::MAX, max_rounds == 0);
            let layout = store.meta is Some && store.meta->0.schema != 4;
            let other = store.meta is Some && store.meta->0.identity != identity;
            &&& opened is Ok <==> !last && !none && !layout && !other
            &&& opened matches Err(error) ==> {
                &&& error == EvidenceError::CheckpointOverflow <==> last
                &&& error == EvidenceError::NoRounds <==> !last && none
                &&& error == EvidenceError::SchemaMismatch <==> !last && !none && layout
                &&& error == EvidenceError::IdentityMismatch <==> !last && !none && !layout && other
            }
            &&& opened matches Ok(m) ==> {
                &&& m.max_rounds == max_rounds
                &&& m.limits == limits
                &&& m.store.meta is Some && m.store.meta->0.schema == 4 && m.store.meta->0.identity == identity
                &&& m.store.progress == Some(m.progress)
                &&& m.store.records == store.records
                &&& m.store.hashes == store.hashes
                &&& m.store.unmatched == store.unmatched
                &&& m.store.unmatched_by_height == store.unmatched_by_height
                &&& m.store.blocks == store.blocks
                &&& m.store.clean == store.clean
                &&& m.store.pending == store.pending
                &&& m.store.recovery == store.recovery
                &&& m.store.incidents == store.incidents
            }
        }),
{
    let stamped = StoreModel {
        meta: Some(crate::store::StoreMeta { schema: crate::store::SCHEMA, identity }),
        ..store
    };
    assert(stamped.write_all(Seq::empty()) == stamped);
}

/// A store that is opened goes on from the progress that it holds, or stands at the checkpoint of both
/// chains with nothing counted. Only the clock of target progress starts anew.
pub proof fn law_an_opened_store_goes_on_where_it_stood(
    store: StoreModel,
    identity: ReplayIdentity,
    max_rounds: u32,
    limits: StoreLimits,
    now: u64,
)
    requires
        EvidenceModel::opened(store, identity, max_rounds, limits, now) is Ok,
    ensures
        ({
            let progress = EvidenceModel::opened(store, identity, max_rounds, limits, now)->Ok_0.progress;
            let source = BlockCursor { height: identity.checkpoint_height, hash: identity.source_hash };
            let target = BlockCursor { height: identity.checkpoint_height, hash: identity.target_hash };
            &&& progress.last_target_progress_ms == now
            &&& store.progress matches Some(stored) ==> progress == (Progress { last_target_progress_ms: now, ..stored })
            &&& store.progress is None ==> {
                &&& progress.checkpoint_height == identity.checkpoint_height
                &&& progress.source == source
                &&& progress.source_receipts == source
                &&& progress.target == target
                &&& progress.last_dispatch_target == target
                &&& progress.target_timestamp_ms == 0
                &&& progress.source_transactions == 0
                &&& progress.archived_included == 0
                &&& progress.archived_unmatched == 0
                &&& progress.system_transactions == 0
                &&& progress.system_failures == 0
                &&& progress.observation_failures == 0
                &&& progress.history_failures == 0
                &&& progress.last_dispatch_ms == 0
                &&& progress.incident_sequence == 0
                &&& !progress.stall_open
            }
        }),
{
}

/// A store is opened for reading if and only if it is of this layout and has progress, and then shows
/// what it holds and nothing else.
pub proof fn law_a_reader_shows_what_is_stored(store: StoreModel)
    ensures
        EvidenceModel::opened_for_reading(store) is Ok <==> store.meta is Some && store.meta->0.schema == 4
            && store.progress is Some,
        EvidenceModel::opened_for_reading(store) matches Err(error) ==> {
            &&& error == EvidenceError::SchemaMismatch <==> store.meta is None || store.meta->0.schema != 4
            &&& error == EvidenceError::MissingProgress <==> store.meta is Some && store.meta->0.schema == 4
        },
        EvidenceModel::opened_for_reading(store) matches Ok(m) ==> m.store == store && store.progress == Some(m.progress)
            && m.journal.len() == 0,
{
}

/// An operation that is refused returns its error and changes nothing; one that is not returns its
/// result, and its one commit is what changed and the last of the journal.
pub proof fn law_an_operation_is_one_commit_or_nothing<T>(
    before: EvidenceModel,
    after: EvidenceModel,
    outcome: Outcome<T>,
    result: Result<T, EvidenceError>,
)
    requires
        evidence::ran(before, after, outcome, result),
    ensures
        outcome matches Err(error) ==> after == before && result == Err::<T, EvidenceError>(error),
        outcome matches Ok((commit, value)) ==> {
            &&& result == Ok::<T, EvidenceError>(value)
            &&& commit is None ==> after == before
            &&& commit matches Some(commit) ==> {
                &&& after.journal == before.journal.push(commit)
                &&& after.max_rounds == before.max_rounds && after.limits == before.limits
                &&& commit.progress matches Some(progress) ==> after.progress == progress && after.store.progress
                    == Some(progress)
                &&& commit.progress is None ==> after.progress == before.progress
            }
        },
{
}

// Lookup.

/// A hash finds every occurrence of it that is on record and no other, each once, in source order and
/// with its record. With more than a thousand it finds none and says so.
pub proof fn law_a_hash_finds_all_its_occurrences_in_source_order(m: EvidenceModel, hash: B256)
    requires
        m.consistent(),
    ensures
        m.by_hash_error(hash) is Some ==> m.by_hash_error(hash) == Some(EvidenceError::TooManyOccurrences) && m.hash_keys(
            hash,
        ).len() == 1001,
        m.by_hash_error(hash) is None ==> {
            let found = m.by_hash(hash);
            &&& found.len() <= 1000
            &&& forall|i: int| 0 <= i < found.len() ==> {
                &&& m.occurrence((#[trigger] found[i]).0) == Some(found[i].1)
                &&& found[i].1.transaction.hash == hash
            }
            &&& forall|i: int, j: int| 0 <= i < j < found.len() ==> (#[trigger] found[i]).0.source_height
                < (#[trigger] found[j]).0.source_height || (found[i].0.source_height == found[j].0.source_height
                && found[i].0.source_index < found[j].0.source_index)
            &&& forall|id: OccurrenceId| (#[trigger] m.occurrence(id)) is Some && m.occurrence(id)->0.transaction.hash == hash
                ==> found.contains((id, m.occurrence(id)->0))
        },
{
    retention_laws::law_a_consistent_store_has_no_index_errors(m, hash, 0);
    let keys = m.hash_keys(hash);
    table::lemma_finite_lists(m.store.hashes);
    table::lemma_under_prefix(m.store.hashes, hash.bytes(), 1001);
    words::lemma_hash_len(hash);
    if m.by_hash_error(hash) is Some && keys.len() <= 1000 {
        let i = submission_laws::lemma_error_from(keys.len(), m.hash_key_error(keys));
    }
    if m.by_hash_error(hash) is None {
        let found = m.by_hash(hash);
        assert forall|i: int| 0 <= i < keys.len() implies {
            &&& state::decoded(#[trigger] keys[i].skip(32)) is Some
            &&& found[i].0.key_bytes() == keys[i].skip(32)
            &&& m.store.records.contains_key(keys[i].skip(32))
            &&& m.store.records[keys[i].skip(32)].transaction.hash == hash
            &&& keys[i] == state::index_key(hash, found[i].0)
        } by {
            assert(m.store.hashes.contains_key(keys[i]));
            let tail = keys[i].skip(32);
            state::law_decoding_keeps_the_key(tail);
            let record = m.store.records[tail];
            state::law_index_keys_are_exact(record.transaction.hash, hash, record.id(), found[i].0);
            state::law_keys_are_exact(record.id(), found[i].0);
        }
        assert forall|i: int, j: int| 0 <= i < j < found.len() implies (#[trigger] found[i]).0.source_height
            < (#[trigger] found[j]).0.source_height || (found[i].0.source_height == found[j].0.source_height
            && found[i].0.source_index < found[j].0.source_index) by {
            assert(keys[i].skip(32).len() + keys[j].skip(32).len() >= 0);
            bytes::lemma_before_after_common(hash.bytes(), found[i].0.key_bytes(), found[j].0.key_bytes());
            state::law_keys_are_ordered(found[i].0, found[j].0);
        }
        assert forall|i: int| 0 <= i < found.len() implies {
            &&& m.occurrence((#[trigger] found[i]).0) == Some(found[i].1)
            &&& found[i].1.transaction.hash == hash
        } by {
            assert(keys[i].skip(32).len() >= 0);
        }
        assert forall|id: OccurrenceId| (#[trigger] m.occurrence(id)) is Some && m.occurrence(id)->0.transaction.hash == hash implies found.contains(
            (id, m.occurrence(id)->0),
        ) by {
            let record = m.occurrence(id)->0;
            assert(m.store.records.contains_key(id.key_bytes()));
            state::law_keys_are_exact(record.id(), id);
            let key = state::index_key(hash, id);
            assert(m.store.hashes.contains_key(key));
            state::law_index_keys_are_exact(hash, hash, id, id);
            assert(keys.contains(key));
            let i = choose|i: int| 0 <= i < keys.len() && keys[i] == key;
            assert(keys[i].skip(32) == id.key_bytes());
            state::law_keys_are_exact(found[i].0, id);
            assert(found[i] == (id, record));
        }
    }
}

/// The incidents of a period are those from its first to its last millisecond, both among them, in the
/// order of their times; a thousand at most, the earliest.
pub proof fn law_a_period_shows_its_incidents_in_order(m: EvidenceModel, from_ms: u64, to_ms: u64, at_ms: u64, number: u64)
    requires
        m.store.finite(),
        m.incident_keys(from_ms, to_ms).len() < 1000,
    ensures
        ({
            let key = bytes::be(at_ms as nat, 8) + bytes::be(number as nat, 8);
            m.incident_keys(from_ms, to_ms).contains(key) <==> m.store.incidents.contains_key(key) && from_ms <= at_ms <= to_ms
        }),
        m.incident_keys(from_ms, to_ms).len() <= 1000,
        table::ascending(m.incident_keys(from_ms, to_ms)),
{
    let key = bytes::be(at_ms as nat, 8) + bytes::be(number as nat, 8);
    let (start, end) = (bytes::be(from_ms as nat, 8), bytes::be(to_ms as nat, 8) + Seq::new(8, |i: int| 0xffu8));
    let keys = m.incident_keys(from_ms, to_ms);
    table::lemma_finite_lists(m.store.incidents);
    table::lemma_in_range(m.store.incidents, start, end, 1000);
    lemma_period(from_ms, to_ms, at_ms, number);
    if keys.contains(key) {
        let i = choose|i: int| 0 <= i < keys.len() && keys[i] == key;
        assert(m.store.incidents.contains_key(keys[i]));
    }
}

/// A key lies in the range of a period if and only if its time does.
proof fn lemma_period(from_ms: u64, to_ms: u64, at_ms: u64, number: u64)
    ensures
        ({
            let key = bytes::be(at_ms as nat, 8) + bytes::be(number as nat, 8);
            let end = bytes::be(to_ms as nat, 8) + Seq::new(8, |i: int| 0xffu8);
            &&& bytes::not_after(bytes::be(from_ms as nat, 8), key) <==> from_ms <= at_ms
            &&& bytes::not_after(key, end) <==> at_ms <= to_ms
        }),
{
    let (head, tail) = (bytes::be(at_ms as nat, 8), bytes::be(number as nat, 8));
    let (start, last) = (bytes::be(from_ms as nat, 8), bytes::be(to_ms as nat, 8));
    let ones = Seq::new(8, |i: int| 0xffu8);
    let none = Seq::<u8>::empty();
    bytes::lemma_span16();
    bytes::lemma_be_len(at_ms as nat, 8);
    bytes::lemma_be_len(number as nat, 8);
    bytes::lemma_be_len(from_ms as nat, 8);
    bytes::lemma_be_len(to_ms as nat, 8);
    bytes::lemma_be_order(from_ms as nat, at_ms as nat, 8);
    bytes::lemma_be_order(at_ms as nat, from_ms as nat, 8);
    bytes::lemma_be_order(at_ms as nat, to_ms as nat, 8);
    bytes::lemma_be_order(to_ms as nat, at_ms as nat, 8);
    assert(start + none =~= start);
    if from_ms < at_ms {
        bytes::lemma_before_by_head(start, head, none, tail);
    } else if at_ms < from_ms {
        bytes::lemma_before_by_head(head, start, tail, none);
        bytes::lemma_before_asymmetric(head + tail, start);
    } else {
        bytes::lemma_before_after_common(head, none, tail);
        assert(bytes::differ_at(none, tail, 0));
    }
    if at_ms < to_ms {
        bytes::lemma_before_by_head(head, last, tail, ones);
    } else if to_ms < at_ms {
        bytes::lemma_before_by_head(last, head, ones, tail);
        bytes::lemma_before_asymmetric(last + ones, head + tail);
    } else {
        bytes::lemma_be_ones(8);
        bytes::lemma_before_after_common(head, tail, ones);
        bytes::lemma_be_order(number as nat, u64::MAX as nat, 8);
        assert(number < u64::MAX || tail == ones);
    }
}

/// Something is pending if and only if an occurrence on record was not seen on the target.
pub proof fn law_pending_is_what_was_not_seen(m: EvidenceModel)
    requires
        m.consistent(),
    ensures
        (exists|key: Seq<u8>| #[trigger] m.store.pending.contains_key(key)) <==> exists|key: Seq<u8>|
            #[trigger] m.store.records.contains_key(key) && m.store.records[key].target is None,
{
    if exists|key: Seq<u8>| #[trigger] m.store.pending.contains_key(key) {
        let key = choose|key: Seq<u8>| #[trigger] m.store.pending.contains_key(key);
        assert(m.store.records.contains_key(key) && m.store.records[key].target is None);
    }
    if exists|key: Seq<u8>| #[trigger] m.store.records.contains_key(key) && m.store.records[key].target is None {
        let key = choose|key: Seq<u8>| #[trigger] m.store.records.contains_key(key) && m.store.records[key].target is None;
        assert(m.store.pending.contains_key(key));
    }
}

/// The count of unmatched target occurrences is their number, up to ten thousand.
pub proof fn law_unmatched_occurrences_are_counted(m: EvidenceModel)
    requires
        m.consistent(),
    ensures
        m.unmatched_keys().len() <= 10_000,
        m.unmatched_keys().len() < 10_000 ==> m.unmatched_keys().len() == m.store.unmatched.dom().len(),
{
    let places = m.unmatched_keys();
    table::lemma_finite_lists(m.store.unmatched_by_height);
    table::lemma_under_prefix(m.store.unmatched_by_height, Seq::empty(), model::SWEEP as nat);
    if places.len() < 10_000 {
        let keys = places.map_values(|place: Seq<u8>| m.store.unmatched_by_height[place]);
        assert forall|i: int, j: int| 0 <= i < keys.len() && 0 <= j < keys.len() && i != j implies #[trigger] keys[i] != #[trigger] keys[j] by {
            assert(m.store.unmatched_by_height.contains_key(places[i]));
            assert(m.store.unmatched_by_height.contains_key(places[j]));
            if places[i] == places[j] {
                if i < j {
                    table::lemma_ascending_distinct(places, i, j);
                } else {
                    table::lemma_ascending_distinct(places, j, i);
                }
            }
        }
        keys.unique_seq_to_set();
        assert forall|key: Seq<u8>| keys.to_set().contains(key) <==> m.store.unmatched.dom().contains(key) by {
            if keys.contains(key) {
                let i = choose|i: int| 0 <= i < keys.len() && keys[i] == key;
                assert(m.store.unmatched_by_height.contains_key(places[i]));
            }
            if m.store.unmatched.contains_key(key) {
                let place = model::location(m.store.unmatched[key]).key_bytes();
                assert(m.store.unmatched_by_height.contains_key(place));
                assert(place.take(0) =~= Seq::empty());
                let i = choose|i: int| 0 <= i < places.len() && places[i] == place;
                assert(keys[i] == key);
            }
        }
        assert(keys.to_set() =~= m.store.unmatched.dom());
    }
}

// Damage.

/// A recovery index that a sweep cannot rely on is reported, and no other: an entry that is no key of an
/// occurrence, or one without a record.
pub proof fn law_a_damaged_recovery_index_is_reported(m: EvidenceModel)
    ensures
        m.recover() is Ok <==> forall|i: int| 0 <= i < m.recovery_keys().len() ==> (#[trigger] m.recovery_keys()[i]).len() == 12
            && m.store.records.contains_key(m.recovery_keys()[i]),
        m.recover() matches Err(error) ==> exists|i: int|
            0 <= i < m.recovery_keys().len() && if (#[trigger] m.recovery_keys()[i]).len() == 12 {
                error == EvidenceError::MissingRecoveryOccurrence && !m.store.records.contains_key(m.recovery_keys()[i])
            } else {
                error == EvidenceError::InvalidRecoveryIndex
            },
{
    let keys = m.recovery_keys();
    let check = m.recovery_error(keys);
    assert forall|i: int| 0 <= i < keys.len() implies ((#[trigger] check(i)) is None <==> keys[i].len() == 12
        && m.store.records.contains_key(keys[i])) by {
        if keys[i].len() == 12 {
            state::law_decoding_keeps_the_key(keys[i]);
        }
    }
    if fold::first_error(keys.len(), check) is Some {
        let i = submission_laws::lemma_error_from(keys.len(), check);
        if keys[i].len() == 12 {
            state::law_decoding_keeps_the_key(keys[i]);
        }
        assert(check(i) is Some);
        assert(keys[i] == m.recovery_keys()[i]);
    } else {
        assert forall|i: int| 0 <= i < keys.len() implies (#[trigger] m.recovery_keys()[i]).len() == 12
            && m.store.records.contains_key(m.recovery_keys()[i]) by {
            fold::lemma_all_pass(keys.len(), check, i);
            assert(check(i) is None);
        }
    }
}

/// A hash index that a lookup cannot rely on is reported, and no other: an entry of the hash that names no
/// occurrence, or one without a record.
pub proof fn law_a_damaged_hash_index_is_reported(m: EvidenceModel, hash: B256)
    requires
        m.hash_keys(hash).len() <= 1000,
    ensures
        m.by_hash_error(hash) is None <==> forall|i: int| 0 <= i < m.hash_keys(hash).len() ==> (#[trigger] m.hash_keys(
            hash,
        )[i]).skip(32).len() == 12 && m.store.records.contains_key(m.hash_keys(hash)[i].skip(32)),
        m.by_hash_error(hash) matches Some(error) ==> exists|i: int|
            0 <= i < m.hash_keys(hash).len() && if (#[trigger] m.hash_keys(hash)[i]).skip(32).len() == 12 {
                error == EvidenceError::MissingIndexedOccurrence && !m.store.records.contains_key(m.hash_keys(hash)[i].skip(32))
            } else {
                error == EvidenceError::InvalidHashIndex
            },
{
    let keys = m.hash_keys(hash);
    let check = m.hash_key_error(keys);
    assert forall|i: int| 0 <= i < keys.len() implies ((#[trigger] check(i)) is None <==> keys[i].skip(32).len() == 12
        && m.store.records.contains_key(keys[i].skip(32))) by {
        if keys[i].skip(32).len() == 12 {
            state::law_decoding_keeps_the_key(keys[i].skip(32));
        }
    }
    if fold::first_error(keys.len(), check) is Some {
        let i = submission_laws::lemma_error_from(keys.len(), check);
        if keys[i].skip(32).len() == 12 {
            state::law_decoding_keeps_the_key(keys[i].skip(32));
        }
        assert(check(i) is Some);
        assert(keys[i] == m.hash_keys(hash)[i]);
    } else {
        assert forall|i: int| 0 <= i < keys.len() implies (#[trigger] m.hash_keys(hash)[i]).skip(32).len() == 12
            && m.store.records.contains_key(m.hash_keys(hash)[i].skip(32)) by {
            fold::lemma_all_pass(keys.len(), check, i);
            assert(check(i) is None);
        }
    }
}

/// Retention is refused only for an index that it cannot rely on: a place of an unmatched occurrence or
/// an entry of the clean index that is no key of an occurrence, or an entry without the record of a clean
/// inclusion.
pub proof fn law_retention_is_refused_for_damage_only(m: EvidenceModel, retain_blocks: u64)
    requires
        m.retire(retain_blocks) is Err,
    ensures
        ({
            let error = m.retire(retain_blocks)->Err_0;
            ||| error == EvidenceError::InvalidUnmatchedIndex && exists|i: int|
                0 <= i < m.unmatched_keys().len() && (#[trigger] m.unmatched_keys()[i]).len() != 12
            ||| error == EvidenceError::InvalidCleanIndex && exists|i: int|
                0 <= i < m.clean_keys().len() && (#[trigger] m.clean_keys()[i]).len() != 12
            ||| error == EvidenceError::MissingCleanOccurrence && exists|i: int|
                0 <= i < m.clean_keys().len() && !m.store.records.contains_key(#[trigger] m.clean_keys()[i])
            ||| error == EvidenceError::InconsistentCleanIndex && exists|i: int|
                0 <= i < m.clean_keys().len() && m.store.records.contains_key(#[trigger] m.clean_keys()[i])
                    && !m.store.records[m.clean_keys()[i]].clean_inclusion()
        }),
{
    let (places, clean) = (m.unmatched_keys(), m.clean_keys());
    let n = m.retired_clean(retain_blocks);
    if EvidenceModel::unreadable(places, m.unmatched_floor(retain_blocks)) {
        let i = EvidenceModel::below(places, m.unmatched_floor(retain_blocks)) as int;
        assert(m.unmatched_keys()[i].len() != 12);
    } else if fold::first_error(n, m.clean_error(clean)) is Some {
        let i = submission_laws::lemma_error_from(n, m.clean_error(clean));
        retention::lemma_below_all(clean, m.clean_floor(retain_blocks), i);
        state::law_decoding_keeps_the_key(clean[i]);
        assert(clean[i] == m.clean_keys()[i]);
    } else {
        let i = EvidenceModel::below(clean, m.clean_floor(retain_blocks)) as int;
        assert(m.clean_keys()[i].len() != 12);
    }
}

} // verus!
