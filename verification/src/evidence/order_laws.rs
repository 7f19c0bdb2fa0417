//! The order in which target occurrences go to the records of their hash.

use crate::bytes;
use crate::evidence::consistency;
use crate::evidence::intake_laws;
use crate::evidence::matching;
use crate::evidence::model;
use crate::evidence::model::EvidenceModel;
use crate::fold;
use crate::source::Envelope;
use crate::state;
use crate::state::{BlockCursor, IncidentModel, OccurrenceId, OccurrenceModel, TargetObservation};
use crate::store;
use crate::store::{DiskUsage, WriteModel};
use crate::table;
use crate::words::B256;
use vstd::prelude::*;

verus! {

/// The records of a hash got their target occurrences in turn: none before an earlier record that
/// waited, a later record a later occurrence, and none while an earlier candidate was left over.
spec fn in_turn(
    before: Map<Seq<u8>, OccurrenceModel>,
    after: Map<Seq<u8>, OccurrenceModel>,
    candidates: Map<Seq<u8>, TargetObservation>,
    hash: B256,
) -> bool {
    &&& forall|a: Seq<u8>, b: Seq<u8>|
        #![trigger after.contains_key(a), after.contains_key(b)]
        after.contains_key(a) && after.contains_key(b) && after[a].transaction.hash == hash && after[b].transaction.hash
            == hash && before[b].target is None && after[b].target is Some && bytes::before(a, b) ==> after[a].target is Some
            && (before[a].target is None ==> bytes::before(
            model::target_key(after[a].target->0),
            model::target_key(after[b].target->0),
        ))
    &&& forall|a: Seq<u8>, key: Seq<u8>|
        #![trigger after.contains_key(a), candidates.contains_key(key)]
        after.contains_key(a) && after[a].transaction.hash == hash && before[a].target is None && after[a].target is Some
            && candidates.contains_key(key) ==> matching::taken(after, candidates[key]) || bytes::before(
            model::target_key(after[a].target->0),
            key,
        )
}

/// What giving the first `n` target occurrences to the first `n` open records does.
proof fn lemma_assigned(
    records: Map<Seq<u8>, OccurrenceModel>,
    open: Seq<Seq<u8>>,
    keys: Seq<Seq<u8>>,
    targets: Map<Seq<u8>, TargetObservation>,
    n: nat,
)
    requires
        table::ascending(open),
        n <= open.len(),
        forall|i: int| 0 <= i < open.len() ==> records.contains_key(#[trigger] open[i]),
        records.dom().finite(),
    ensures
        ({
            let after = EvidenceModel::assigned(records, open, keys, targets, n);
            &&& after.dom() == records.dom()
            &&& forall|i: int| 0 <= i < n ==> after[#[trigger] open[i]] == (OccurrenceModel {
                target: Some(targets[keys[i]]),
                ..records[open[i]]
            })
            &&& forall|key: Seq<u8>| #[trigger] records.contains_key(key) && !open.take(n as int).contains(key) ==> after[key]
                == records[key]
        }),
    decreases n,
{
    if n > 0 {
        let before = (n - 1) as nat;
        lemma_assigned(records, open, keys, targets, before);
        let held = EvidenceModel::assigned(records, open, keys, targets, before);
        let after = EvidenceModel::assigned(records, open, keys, targets, n);
        assert(records.contains_key(open[n - 1]));
        assert(after.dom() =~= records.dom());
        assert forall|i: int| 0 <= i < n implies after[#[trigger] open[i]] == (OccurrenceModel {
            target: Some(targets[keys[i]]),
            ..records[open[i]]
        }) by {
            if i < n - 1 && open[i] == open[n - 1] {
                table::lemma_ascending_distinct(open, i, n - 1);
            }
        }
        assert forall|key: Seq<u8>| #[trigger] records.contains_key(key) && !open.take(n as int).contains(key) implies after[key]
            == records[key] by {
            let (narrow, wide) = (open.take(before as int), open.take(n as int));
            if narrow.contains(key) {
                let i = choose|i: int| 0 <= i < narrow.len() && narrow[i] == key;
                assert(wide[i] == key);
            }
            if key == open[n - 1] {
                assert(wide[n - 1] == key);
            }
        }
    }
}

/// What matching one hash does: records of other hashes stay, and those of the hash go in turn.
proof fn lemma_hash_in_turn(
    m: EvidenceModel,
    records: Map<Seq<u8>, OccurrenceModel>,
    fresh: Map<Seq<u8>, TargetObservation>,
    hash: B256,
)
    requires
        m.consistent(),
        m.by_hash_error(hash) is None,
        consistency::records_filed(records),
        records.dom().finite(),
        fresh.dom().finite(),
        matching::keyed(fresh),
    ensures
        ({
            let matched = m.matched(records, fresh, hash);
            let (before, after) = (
                matching::overlaid(m.store.records, records),
                matching::overlaid(m.store.records, matched),
            );
            &&& consistency::records_filed(matched)
            &&& matched.dom().finite()
            &&& after.dom() == before.dom()
            &&& forall|key: Seq<u8>| #[trigger] before.contains_key(key) ==> matching::matched_from(before[key], after[key])
            &&& forall|key: Seq<u8>| #[trigger] before.contains_key(key) && before[key].transaction.hash != hash ==> after[key]
                == before[key]
            &&& in_turn(before, after, m.candidates(fresh, hash), hash)
        }),
{
    let all = m.with_stored(records, hash);
    matching::lemma_with_stored(m, records, hash, m.hash_keys(hash).len());
    let targets = m.candidates(fresh, hash);
    matching::lemma_candidates(m, fresh, hash);
    table::lemma_finite_lists(targets);
    matching::lemma_open_records(all, hash);
    let open = EvidenceModel::open_records(all, hash);
    let keys = table::listed(targets);
    let n = EvidenceModel::pairs(open, keys);
    lemma_assigned(all, open, keys, targets, n);
    let matched = m.matched(records, fresh, hash);
    assert(matched == EvidenceModel::assigned(all, open, keys, targets, n));
    let (before, after) = (matching::overlaid(m.store.records, records), matching::overlaid(m.store.records, matched));
    assert(before == matching::overlaid(m.store.records, all));
    let used = open.take(n as int);
    assert(after.dom() =~= before.dom());
    assert forall|key: Seq<u8>| used.contains(key) implies exists|i: int| 0 <= i < n && #[trigger] open[i] == key by {
        let i = choose|i: int| 0 <= i < used.len() && used[i] == key;
        assert(open[i] == key);
    }
    assert forall|i: int| 0 <= i < keys.len() implies model::target_key(targets[#[trigger] keys[i]]) == keys[i] by {
        assert(keys.contains(keys[i]));
        assert(targets.contains_key(keys[i]));
        if !fresh.contains_key(keys[i]) {
            assert(m.store.unmatched.contains_key(keys[i]));
        }
    }
    assert forall|key: Seq<u8>| #[trigger] before.contains_key(key) implies matching::matched_from(before[key], after[key])
        && (before[key].transaction.hash != hash ==> after[key] == before[key]) by {
        if all.contains_key(key) {
            assert(matched.dom().contains(key));
            if used.contains(key) {
                let i = choose|i: int| 0 <= i < n && #[trigger] open[i] == key;
                assert(all[open[i]].target is None);
            } else {
                assert(matched[key] == all[key]);
            }
        } else {
            assert(!matched.dom().contains(key));
        }
    }
    assert forall|key: Seq<u8>| #[trigger] matched.contains_key(key) implies matched[key].id().key_bytes() == key by {
        assert(all.contains_key(key));
        assert(before.contains_key(key));
        assert(all[key].id().key_bytes() == key);
    }
    // A record of the hash that gets an occurrence now is one of the open ones.
    assert forall|b: Seq<u8>| #[trigger] after.contains_key(b) && after[b].transaction.hash == hash && before[b].target is None
        && after[b].target is Some implies exists|j: int| 0 <= j < n && #[trigger] open[j] == b && after[b].target == Some(
        targets[keys[j]],
    ) by {
        assert(before.contains_key(b));
        assert(before[b].transaction.hash == hash);
        matching::lemma_all_of_hash(m, records, hash, b);
        assert(all.contains_key(b));
        if !used.contains(b) {
            assert(matched[b] == all[b]);
        }
        let j = choose|j: int| 0 <= j < n && #[trigger] open[j] == b;
        assert(matched[open[j]].target == Some(targets[keys[j]]));
    }
    assert forall|a: Seq<u8>, b: Seq<u8>|
        #![trigger after.contains_key(a), after.contains_key(b)]
        after.contains_key(a) && after.contains_key(b) && after[a].transaction.hash == hash && after[b].transaction.hash
            == hash && before[b].target is None && after[b].target is Some && bytes::before(a, b) implies after[a].target is Some
        && (before[a].target is None ==> bytes::before(
        model::target_key(after[a].target->0),
        model::target_key(after[b].target->0),
    )) by {
        let j = choose|j: int| 0 <= j < n && #[trigger] open[j] == b && after[b].target == Some(targets[keys[j]]);
        assert(before.contains_key(a));
        if before[a].target is None {
            assert(before[a].transaction.hash == hash);
            matching::lemma_all_of_hash(m, records, hash, a);
            assert(all.contains_key(a) && all[a] == before[a]);
            assert(open.contains(a));
            let i = choose|i: int| 0 <= i < open.len() && open[i] == a;
            if i >= j {
                if i > j {
                    assert(bytes::before(open[j], open[i]));
                    bytes::lemma_before_asymmetric(open[j], open[i]);
                } else {
                    bytes::lemma_before_irreflexive(a);
                }
            }
            assert(matched[open[i]].target == Some(targets[keys[i]]));
            assert(bytes::before(keys[i], keys[j]));
        }
    }
    assert forall|a: Seq<u8>, key: Seq<u8>|
        #![trigger after.contains_key(a), targets.contains_key(key)]
        after.contains_key(a) && after[a].transaction.hash == hash && before[a].target is None && after[a].target is Some
            && targets.contains_key(key) implies matching::taken(after, targets[key]) || bytes::before(
        model::target_key(after[a].target->0),
        key,
    ) by {
        let i = choose|i: int| 0 <= i < n && #[trigger] open[i] == a && after[a].target == Some(targets[keys[i]]);
        assert(keys.contains(key));
        let j = choose|j: int| 0 <= j < keys.len() && keys[j] == key;
        if j < n {
            assert(matched[open[j]].target == Some(targets[keys[j]]));
            assert(all.contains_key(open[j]));
            assert(after.contains_key(open[j]));
        } else {
            assert(bytes::before(keys[i], keys[j]));
        }
    }
}

/// Matching other hashes leaves what went in turn.
proof fn lemma_stays_in_turn(
    before: Map<Seq<u8>, OccurrenceModel>,
    then: Map<Seq<u8>, OccurrenceModel>,
    after: Map<Seq<u8>, OccurrenceModel>,
    candidates: Map<Seq<u8>, TargetObservation>,
    hash: B256,
)
    requires
        in_turn(before, then, candidates, hash),
        after.dom() == then.dom(),
        forall|key: Seq<u8>| #[trigger] then.contains_key(key) ==> matching::matched_from(then[key], after[key]),
        forall|key: Seq<u8>| #[trigger] then.contains_key(key) && then[key].transaction.hash == hash ==> after[key] == then[key],
    ensures
        in_turn(before, after, candidates, hash),
{
    assert forall|a: Seq<u8>, b: Seq<u8>|
        #![trigger after.contains_key(a), after.contains_key(b)]
        after.contains_key(a) && after.contains_key(b) && after[a].transaction.hash == hash && after[b].transaction.hash
            == hash && before[b].target is None && after[b].target is Some && bytes::before(a, b) implies after[a].target is Some
        && (before[a].target is None ==> bytes::before(
        model::target_key(after[a].target->0),
        model::target_key(after[b].target->0),
    )) by {
        assert(then.contains_key(a) && then.contains_key(b));
    }
    assert forall|a: Seq<u8>, key: Seq<u8>|
        #![trigger after.contains_key(a), candidates.contains_key(key)]
        after.contains_key(a) && after[a].transaction.hash == hash && before[a].target is None && after[a].target is Some
            && candidates.contains_key(key) implies matching::taken(after, candidates[key]) || bytes::before(
        model::target_key(after[a].target->0),
        key,
    ) by {
        assert(then.contains_key(a));
        if matching::taken(then, candidates[key]) {
            let k = choose|k: Seq<u8>| #[trigger] then.contains_key(k) && then[k].target == Some(candidates[key]);
            assert(after.contains_key(k));
        }
    }
}

proof fn lemma_hashes_in_turn(
    m: EvidenceModel,
    given: Map<Seq<u8>, OccurrenceModel>,
    fresh: Map<Seq<u8>, TargetObservation>,
    hashes: Seq<B256>,
    n: nat,
)
    requires
        m.consistent(),
        n <= hashes.len(),
        forall|i: int| 0 <= i < hashes.len() ==> m.by_hash_error(#[trigger] hashes[i]) is None,
        forall|i: int, j: int| 0 <= i < j < hashes.len() ==> #[trigger] hashes[i] != #[trigger] hashes[j],
        consistency::records_filed(given),
        given.dom().finite(),
        fresh.dom().finite(),
        matching::keyed(fresh),
    ensures
        ({
            let matched = m.matched_first(given, fresh, hashes, n);
            let (before, after) = (
                matching::overlaid(m.store.records, given),
                matching::overlaid(m.store.records, matched),
            );
            &&& consistency::records_filed(matched)
            &&& matched.dom().finite()
            &&& after.dom() == before.dom()
            &&& forall|key: Seq<u8>| #[trigger] before.contains_key(key) ==> matching::matched_from(before[key], after[key])
            &&& forall|key: Seq<u8>| #[trigger] before.contains_key(key) && !hashes.take(n as int).contains(
                before[key].transaction.hash,
            ) ==> after[key] == before[key]
            &&& forall|i: int| 0 <= i < n ==> in_turn(before, after, m.candidates(fresh, #[trigger] hashes[i]), hashes[i])
        }),
    decreases n,
{
    let before = matching::overlaid(m.store.records, given);
    if n > 0 {
        let less = (n - 1) as nat;
        lemma_hashes_in_turn(m, given, fresh, hashes, less);
        let records = m.matched_first(given, fresh, hashes, less);
        let hash = hashes[n - 1];
        lemma_hash_in_turn(m, records, fresh, hash);
        let matched = m.matched_first(given, fresh, hashes, n);
        let (then, after) = (matching::overlaid(m.store.records, records), matching::overlaid(m.store.records, matched));
        let (narrow, wide) = (hashes.take(less as int), hashes.take(n as int));
        assert(wide[n - 1] == hash);
        assert(!narrow.contains(hash)) by {
            if narrow.contains(hash) {
                let i = choose|i: int| 0 <= i < narrow.len() && narrow[i] == hash;
                assert(hashes[i] != hashes[n - 1]);
            }
        }
        assert forall|key: Seq<u8>| #[trigger] before.contains_key(key) implies matching::matched_from(before[key], after[key])
            && (!wide.contains(before[key].transaction.hash) ==> after[key] == before[key]) by {
            assert(then.contains_key(key));
            let own = before[key].transaction.hash;
            if narrow.contains(own) {
                let i = choose|i: int| 0 <= i < narrow.len() && narrow[i] == own;
                assert(wide[i] == own);
            }
        }
        assert forall|i: int| 0 <= i < n implies in_turn(before, after, m.candidates(fresh, #[trigger] hashes[i]), hashes[i]) by {
            if i < n - 1 {
                assert(hashes[i] != hashes[n - 1]);
                assert forall|key: Seq<u8>| #[trigger] then.contains_key(key) && then[key].transaction.hash == hashes[i] implies after[key]
                    == then[key] by {}
                lemma_stays_in_turn(before, then, after, m.candidates(fresh, hashes[i]), hashes[i]);
            } else {
                lemma_turn_from(before, then, after, m.candidates(fresh, hash), hash);
            }
        }
    }
}

/// What went in turn from records that were as before went in turn from those before.
proof fn lemma_turn_from(
    before: Map<Seq<u8>, OccurrenceModel>,
    then: Map<Seq<u8>, OccurrenceModel>,
    after: Map<Seq<u8>, OccurrenceModel>,
    candidates: Map<Seq<u8>, TargetObservation>,
    hash: B256,
)
    requires
        in_turn(then, after, candidates, hash),
        after.dom() == before.dom(),
        then.dom() == before.dom(),
        forall|key: Seq<u8>| #[trigger] before.contains_key(key) ==> matching::matched_from(before[key], then[key]),
        forall|key: Seq<u8>| #[trigger] then.contains_key(key) ==> matching::matched_from(then[key], after[key]),
        forall|key: Seq<u8>| #[trigger] before.contains_key(key) && before[key].transaction.hash == hash ==> then[key]
            == before[key],
    ensures
        in_turn(before, after, candidates, hash),
{
    assert forall|key: Seq<u8>| #[trigger] after.contains_key(key) && after[key].transaction.hash == hash implies before.contains_key(
        key,
    ) && then[key] == before[key] by {
        assert(before.contains_key(key));
        assert(then.contains_key(key));
    }
}

/// A matching goes in turn for every hash that it is about.
proof fn lemma_reconciled_in_turn(
    m: EvidenceModel,
    given: Map<Seq<u8>, OccurrenceModel>,
    targets: Seq<TargetObservation>,
    hash: B256,
)
    requires
        m.consistent(),
        m.reconcile_error(given, targets) is None,
        consistency::records_filed(given),
        given.dom().finite(),
        EvidenceModel::concerns(given, targets, hash),
    ensures
        in_turn(
            matching::overlaid(m.store.records, given),
            matching::overlaid(m.store.records, m.reconciled(given, targets)),
            m.candidates(EvidenceModel::by_target_key(targets), hash),
            hash,
        ),
{
    let hashes = EvidenceModel::hash_list(given, targets);
    let fresh = EvidenceModel::by_target_key(targets);
    matching::lemma_by_target_key_finite(targets);
    matching::lemma_hash_list(given, targets);
    assert forall|i: int| 0 <= i < hashes.len() implies m.by_hash_error(#[trigger] hashes[i]) is None by {
        let check = |i: int| m.by_hash_error(hashes[i]);
        fold::lemma_all_pass(hashes.len(), check, i);
        assert(check(i) is None);
    }
    lemma_hashes_in_turn(m, given, fresh, hashes, hashes.len());
    matching::lemma_listed_hash(given, targets, hash);
    let i = choose|i: int| 0 <= i < hashes.len() && hashes[i] == hash;
    assert(hashes[i] == hash);
}

/// Records of a hash that a matching is not about stay as they are.
proof fn lemma_other_hashes_stay(
    m: EvidenceModel,
    given: Map<Seq<u8>, OccurrenceModel>,
    targets: Seq<TargetObservation>,
    key: Seq<u8>,
)
    requires
        m.consistent(),
        m.reconcile_error(given, targets) is None,
        consistency::records_filed(given),
        given.dom().finite(),
        matching::overlaid(m.store.records, given).contains_key(key),
        !EvidenceModel::concerns(given, targets, matching::overlaid(m.store.records, given)[key].transaction.hash),
    ensures
        matching::overlaid(m.store.records, m.reconciled(given, targets))[key] == matching::overlaid(m.store.records, given)[key],
{
    let hashes = EvidenceModel::hash_list(given, targets);
    let fresh = EvidenceModel::by_target_key(targets);
    let hash = matching::overlaid(m.store.records, given)[key].transaction.hash;
    matching::lemma_by_target_key_finite(targets);
    matching::lemma_hash_list(given, targets);
    assert forall|i: int| 0 <= i < hashes.len() implies m.by_hash_error(#[trigger] hashes[i]) is None by {
        let check = |i: int| m.by_hash_error(hashes[i]);
        fold::lemma_all_pass(hashes.len(), check, i);
        assert(check(i) is None);
    }
    lemma_hashes_in_turn(m, given, fresh, hashes, hashes.len());
    assert(hashes.take(hashes.len() as int) =~= hashes);
    if hashes.contains(hash) {
        let i = choose|i: int| 0 <= i < hashes.len() && hashes[i] == hash;
        let map = EvidenceModel::hashes_of(given, targets);
        let place = table::listed(map)[i];
        assert(table::listed(map).contains(place));
        assert(map.contains_key(place));
        let other = choose|other: B256| #[trigger] other.bytes() == place && EvidenceModel::concerns(given, targets, other);
        assert(other.bytes() == place);
        crate::words::lemma_hash_injective(hashes[i], other);
    }
}

/// Keys of target occurrences of one hash are ordered as their places are.
proof fn lemma_places_ordered(s: TargetObservation, t: TargetObservation)
    requires
        s.transaction_hash == t.transaction_hash,
    ensures
        bytes::before(model::target_key(s), model::target_key(t)) <==> s.location.block.height < t.location.block.height || (
        s.location.block.height == t.location.block.height && s.location.index < t.location.index),
{
    let (x, y) = (model::location(s), model::location(t));
    bytes::lemma_before_after_common(s.transaction_hash.bytes(), x.key_bytes(), y.key_bytes());
    state::law_keys_are_ordered(x, y);
}

/// The same transaction may occur more than once on both chains. Its target occurrences go to its source
/// occurrences in turn: when a target block gives one to a source occurrence, every earlier source
/// occurrence of the hash has one, and of two that get theirs now the earlier one gets the earlier.
pub proof fn law_repeated_transactions_are_matched_in_turn(
    m: EvidenceModel,
    cursor: BlockCursor,
    timestamp_ms: u64,
    observations: Seq<TargetObservation>,
    system_txs: u64,
    failures: Seq<IncidentModel>,
    usage: DiskUsage,
    now: u64,
    a: OccurrenceId,
    b: OccurrenceId,
)
    requires
        m.consistent(),
        intake_laws::of_block(cursor, observations),
        m.observe(cursor, timestamp_ms, observations, system_txs, failures, usage, now) is Ok,
        a.source_height < b.source_height || (a.source_height == b.source_height && a.source_index < b.source_index),
        m.occurrence(a) is Some,
        m.occurrence(b) is Some,
        m.occurrence(a)->0.transaction.hash == m.occurrence(b)->0.transaction.hash,
        m.occurrence(b)->0.target is None,
        m.settle(m.observe(cursor, timestamp_ms, observations, system_txs, failures, usage, now)->Ok_0.0).occurrence(
            b,
        )->0.target is Some,
    ensures
        ({
            let after = m.settle(m.observe(cursor, timestamp_ms, observations, system_txs, failures, usage, now)->Ok_0.0);
            let (first, second) = (after.occurrence(a)->0.target, after.occurrence(b)->0.target);
            &&& first is Some
            &&& m.occurrence(a)->0.target is None ==> first->0.location.block.height < second->0.location.block.height || (
            first->0.location.block.height == second->0.location.block.height && first->0.location.index
                < second->0.location.index)
        }),
{
    let given = Map::<Seq<u8>, OccurrenceModel>::empty();
    lemma_observed_records(m, cursor, timestamp_ms, observations, system_txs, failures, usage, now);
    let after = m.settle(m.observe(cursor, timestamp_ms, observations, system_txs, failures, usage, now)->Ok_0.0);
    let (x, y) = (a.key_bytes(), b.key_bytes());
    let hash = m.store.records[y].transaction.hash;
    let before = matching::overlaid(m.store.records, given);
    assert(before =~= m.store.records);
    state::law_keys_are_ordered(a, b);
    intake_laws::law_observation_consumes_each_target_once(
        m,
        cursor,
        timestamp_ms,
        observations,
        system_txs,
        failures,
        usage,
        now,
    );
    assert(after.store.records.contains_key(x) && after.store.records.contains_key(y));
    if !EvidenceModel::concerns(given, observations, hash) {
        lemma_other_hashes_stay(m, given, observations, y);
    }
    lemma_reconciled_in_turn(m, given, observations, hash);
    if m.store.records[x].target is None {
        let (s, t) = (after.store.records[x].target->0, after.store.records[y].target->0);
        assert(consistency::targets_single(after.store.records, after.store.unmatched));
        lemma_places_ordered(s, t);
    }
}

/// The records after a target block are those of its matching.
proof fn lemma_observed_records(
    m: EvidenceModel,
    cursor: BlockCursor,
    timestamp_ms: u64,
    observations: Seq<TargetObservation>,
    system_txs: u64,
    failures: Seq<IncidentModel>,
    usage: DiskUsage,
    now: u64,
)
    requires
        m.consistent(),
        intake_laws::of_block(cursor, observations),
        m.observe(cursor, timestamp_ms, observations, system_txs, failures, usage, now) is Ok,
    ensures
        m.settle(m.observe(cursor, timestamp_ms, observations, system_txs, failures, usage, now)->Ok_0.0).store.records
            == matching::overlaid(m.store.records, m.reconciled(Map::empty(), observations)),
{
    let given = Map::<Seq<u8>, OccurrenceModel>::empty();
    let commit = m.observe(cursor, timestamp_ms, observations, system_txs, failures, usage, now)->Ok_0.0->0;
    intake_laws::lemma_block_is_new(m, cursor, observations);
    matching::lemma_reconciled(m, m.store, given, observations);
    let incidents = intake_laws::observation_incidents(m, failures, now);
    intake_laws::lemma_observation_incidents(m, failures, now);
    assert(commit.writes == m.reconcile_writes(given, observations) + incidents);
    store::lemma_write_all_concat(m.store, m.reconcile_writes(given, observations), incidents);
    intake_laws::lemma_incidents_alone(m.store.write_all(m.reconcile_writes(given, observations)), incidents);
}

/// What is left over of a hash is later on the target than everything that was matched now: no
/// occurrence is passed over for a later one. A hash with a thousand unmatched occurrences or more is
/// not read whole.
pub proof fn law_no_target_occurrence_is_passed_over(
    m: EvidenceModel,
    cursor: BlockCursor,
    timestamp_ms: u64,
    observations: Seq<TargetObservation>,
    system_txs: u64,
    failures: Seq<IncidentModel>,
    usage: DiskUsage,
    now: u64,
    id: OccurrenceId,
    left: Seq<u8>,
)
    requires
        m.consistent(),
        intake_laws::of_block(cursor, observations),
        m.observe(cursor, timestamp_ms, observations, system_txs, failures, usage, now) is Ok,
        m.occurrence(id) is Some,
        m.occurrence(id)->0.target is None,
        matching::all_read(m, m.occurrence(id)->0.transaction.hash),
        ({
            let after = m.settle(m.observe(cursor, timestamp_ms, observations, system_txs, failures, usage, now)->Ok_0.0);
            &&& after.occurrence(id)->0.target is Some
            &&& after.store.unmatched.contains_key(left)
            &&& after.store.unmatched[left].transaction_hash == m.occurrence(id)->0.transaction.hash
        }),
    ensures
        ({
            let after = m.settle(m.observe(cursor, timestamp_ms, observations, system_txs, failures, usage, now)->Ok_0.0);
            let (taken, waiting) = (after.occurrence(id)->0.target->0.location, after.store.unmatched[left].location);
            taken.block.height < waiting.block.height || (taken.block.height == waiting.block.height && taken.index
                < waiting.index)
        }),
{
    let given = Map::<Seq<u8>, OccurrenceModel>::empty();
    let fresh = EvidenceModel::by_target_key(observations);
    let after = m.settle(m.observe(cursor, timestamp_ms, observations, system_txs, failures, usage, now)->Ok_0.0);
    let key = id.key_bytes();
    let hash = m.store.records[key].transaction.hash;
    let before = matching::overlaid(m.store.records, given);
    assert(before =~= m.store.records);
    lemma_observed_records(m, cursor, timestamp_ms, observations, system_txs, failures, usage, now);
    lemma_observed_unmatched(m, cursor, timestamp_ms, observations, system_txs, failures, usage, now, left);
    intake_laws::law_observation_consumes_each_target_once(
        m,
        cursor,
        timestamp_ms,
        observations,
        system_txs,
        failures,
        usage,
        now,
    );
    assert(after.store.records.contains_key(key));
    if !EvidenceModel::concerns(given, observations, hash) {
        lemma_other_hashes_stay(m, given, observations, key);
    }
    lemma_reconciled_in_turn(m, given, observations, hash);
    matching::lemma_all_candidates(m, fresh, hash, left);
    matching::lemma_by_target_key_finite(observations);
    matching::lemma_candidates(m, fresh, hash);
    let candidates = m.candidates(fresh, hash);
    assert(candidates.contains_key(left) && candidates[left] == after.store.unmatched[left]);
    let (s, t) = (after.store.records[key].target->0, after.store.unmatched[left]);
    assert(model::target_key(t) == left);
    if matching::taken(after.store.records, t) {
        let k = choose|k: Seq<u8>| #[trigger] after.store.records.contains_key(k) && after.store.records[k].target == Some(t);
        assert(after.store.records[k].target == Some(t));
    }
    lemma_places_ordered(s, t);
}

/// What is unmatched after a target block was unmatched before it or shown by it.
proof fn lemma_observed_unmatched(
    m: EvidenceModel,
    cursor: BlockCursor,
    timestamp_ms: u64,
    observations: Seq<TargetObservation>,
    system_txs: u64,
    failures: Seq<IncidentModel>,
    usage: DiskUsage,
    now: u64,
    left: Seq<u8>,
)
    requires
        m.consistent(),
        intake_laws::of_block(cursor, observations),
        m.observe(cursor, timestamp_ms, observations, system_txs, failures, usage, now) is Ok,
        m.settle(m.observe(cursor, timestamp_ms, observations, system_txs, failures, usage, now)->Ok_0.0).store.unmatched.contains_key(
            left,
        ),
    ensures
        ({
            let after = m.settle(m.observe(cursor, timestamp_ms, observations, system_txs, failures, usage, now)->Ok_0.0);
            let filed = m.store.unmatched.union_prefer_right(EvidenceModel::by_target_key(observations));
            filed.contains_key(left) && filed[left] == after.store.unmatched[left]
        }),
{
    let given = Map::<Seq<u8>, OccurrenceModel>::empty();
    let commit = m.observe(cursor, timestamp_ms, observations, system_txs, failures, usage, now)->Ok_0.0->0;
    intake_laws::lemma_block_is_new(m, cursor, observations);
    matching::lemma_reconciled(m, m.store, given, observations);
    let incidents = intake_laws::observation_incidents(m, failures, now);
    intake_laws::lemma_observation_incidents(m, failures, now);
    assert(commit.writes == m.reconcile_writes(given, observations) + incidents);
    store::lemma_write_all_concat(m.store, m.reconcile_writes(given, observations), incidents);
    let matched = m.store.write_all(m.reconcile_writes(given, observations));
    intake_laws::lemma_incidents_alone(matched, incidents);
    assert(matched.unmatched.contains_key(left));
}

/// The records after a preparation are those of its matching.
proof fn lemma_prepared_matching(
    m: EvidenceModel,
    cursor: BlockCursor,
    timestamp_ms: u64,
    transactions: Seq<Envelope>,
    usage: DiskUsage,
    now: u64,
)
    requires
        m.consistent(),
        m.prepare(cursor, timestamp_ms, transactions, usage, now) is Ok,
    ensures
        ({
            let given = m.prepared_records(cursor, timestamp_ms, transactions, now, transactions.len());
            &&& m.settle(m.prepare(cursor, timestamp_ms, transactions, usage, now)->Ok_0.0).store.records
                == matching::overlaid(m.store.records, m.reconciled(given, Seq::empty()))
            &&& matching::given_right(m, given)
            &&& m.reconcile_error(given, Seq::empty()) is None
        }),
{
    let n = transactions.len();
    let commit = m.prepare(cursor, timestamp_ms, transactions, usage, now)->Ok_0.0->0;
    let block = EvidenceModel::prepared_block(cursor, timestamp_ms, transactions);
    let given = m.prepared_records(cursor, timestamp_ms, transactions, now, n);
    let fresh = fold::gathered(n, m.fresh_writes(cursor, transactions));
    let put = WriteModel::Block { key: model::height_key(cursor.height), value: Some(block) };
    intake_laws::lemma_preparation_checked(m, cursor, timestamp_ms, transactions, usage, now);
    intake_laws::lemma_prepared_records(m, cursor, timestamp_ms, transactions, now, n);
    intake_laws::lemma_fresh_filed(m, cursor, transactions, n);
    assert(fresh.push(put).drop_last() =~= fresh);
    let at = m.store.write_all(fresh.push(put));
    assert(at == m.store.write_all(fresh).write(put));
    let rest = m.reconcile_writes(given, Seq::empty());
    assert(commit.writes == fresh.push(put) + rest);
    store::lemma_write_all_concat(m.store, fresh.push(put), rest);
    assert forall|key: Seq<u8>| #[trigger] given.contains_key(key) implies (if m.store.records.contains_key(key) {
        given[key] == m.store.records[key]
    } else {
        given[key].target is None
    }) by {
        let i = choose|i: int|
            0 <= i < n && #[trigger] intake_laws::relayed(transactions, i) && EvidenceModel::occurrence_at(cursor, i).key_bytes() == key;
        assert(given.contains_key(EvidenceModel::occurrence_at(cursor, i).key_bytes()));
    }
    assert(matching::given_right(m, given));
    assert(matching::incoming_right(m, Seq::empty()));
    matching::lemma_reconciled(m, at, given, Seq::empty());
}

/// Target occurrences that came before their source block go in turn as well: when a preparation gives
/// one to an occurrence, every earlier occurrence of the hash has one, and of two that get theirs now
/// the earlier one gets the earlier.
pub proof fn law_early_target_occurrences_are_matched_in_turn(
    m: EvidenceModel,
    cursor: BlockCursor,
    timestamp_ms: u64,
    transactions: Seq<Envelope>,
    usage: DiskUsage,
    now: u64,
    a: OccurrenceId,
    b: OccurrenceId,
)
    requires
        m.consistent(),
        m.prepare(cursor, timestamp_ms, transactions, usage, now) is Ok,
        a.source_height < b.source_height || (a.source_height == b.source_height && a.source_index < b.source_index),
        m.occurrence(b) is None || m.occurrence(b)->0.target is None,
        ({
            let after = m.settle(m.prepare(cursor, timestamp_ms, transactions, usage, now)->Ok_0.0);
            &&& after.occurrence(a) is Some
            &&& after.occurrence(b) is Some
            &&& after.occurrence(a)->0.transaction.hash == after.occurrence(b)->0.transaction.hash
            &&& after.occurrence(b)->0.target is Some
        }),
    ensures
        ({
            let after = m.settle(m.prepare(cursor, timestamp_ms, transactions, usage, now)->Ok_0.0);
            let (first, second) = (after.occurrence(a)->0.target, after.occurrence(b)->0.target);
            &&& first is Some
            &&& m.occurrence(a) is None || m.occurrence(a)->0.target is None ==> first->0.location.block.height
                < second->0.location.block.height || (first->0.location.block.height == second->0.location.block.height
                && first->0.location.index < second->0.location.index)
        }),
{
    let given = m.prepared_records(cursor, timestamp_ms, transactions, now, transactions.len());
    let after = m.settle(m.prepare(cursor, timestamp_ms, transactions, usage, now)->Ok_0.0);
    lemma_prepared_matching(m, cursor, timestamp_ms, transactions, usage, now);
    intake_laws::law_preparation_records_every_relayed_transaction(m, cursor, timestamp_ms, transactions, usage, now);
    let (x, y) = (a.key_bytes(), b.key_bytes());
    let before = matching::overlaid(m.store.records, given);
    let hash = after.store.records[y].transaction.hash;
    state::law_keys_are_ordered(a, b);
    lemma_records_kept(m, given, Seq::empty());
    assert(after.store.records.contains_key(x) && after.store.records.contains_key(y));
    assert(before.contains_key(x) && before.contains_key(y));
    assert(before[y].target is None) by {
        if given.contains_key(y) && m.store.records.contains_key(y) {
            assert(given[y] == m.store.records[y]);
        }
    }
    if !EvidenceModel::concerns(given, Seq::empty(), hash) {
        lemma_other_hashes_stay(m, given, Seq::empty(), y);
    }
    lemma_reconciled_in_turn(m, given, Seq::empty(), hash);
    if m.occurrence(a) is None || m.occurrence(a)->0.target is None {
        assert(before[x].target is None) by {
            if given.contains_key(x) && m.store.records.contains_key(x) {
                assert(given[x] == m.store.records[x]);
            }
        }
        let (s, t) = (after.store.records[x].target->0, after.store.records[y].target->0);
        assert(consistency::targets_single(after.store.records, after.store.unmatched));
        lemma_places_ordered(s, t);
    }
}

/// A matching adds no record, and each keeps its hash.
proof fn lemma_records_kept(m: EvidenceModel, given: Map<Seq<u8>, OccurrenceModel>, targets: Seq<TargetObservation>)
    requires
        m.consistent(),
        m.reconcile_error(given, targets) is None,
        consistency::records_filed(given),
        given.dom().finite(),
    ensures
        ({
            let (before, after) = (
                matching::overlaid(m.store.records, given),
                matching::overlaid(m.store.records, m.reconciled(given, targets)),
            );
            &&& after.dom() == before.dom()
            &&& forall|key: Seq<u8>| #[trigger] before.contains_key(key) ==> matching::matched_from(before[key], after[key])
        }),
{
    let hashes = EvidenceModel::hash_list(given, targets);
    matching::lemma_by_target_key_finite(targets);
    matching::lemma_hash_list(given, targets);
    assert forall|i: int| 0 <= i < hashes.len() implies m.by_hash_error(#[trigger] hashes[i]) is None by {
        let check = |i: int| m.by_hash_error(hashes[i]);
        fold::lemma_all_pass(hashes.len(), check, i);
        assert(check(i) is None);
    }
    lemma_hashes_in_turn(m, given, EvidenceModel::by_target_key(targets), hashes, hashes.len());
}

} // verus!
