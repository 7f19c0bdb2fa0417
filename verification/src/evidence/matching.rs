//! Why matching consumes each target occurrence once.

use crate::bytes;
use crate::evidence::consistency;
use crate::evidence::model;
use crate::evidence::model::EvidenceModel;
use crate::fold;
use crate::state;
use crate::state::{OccurrenceModel, TargetObservation};
use crate::store;
use crate::store::{StoreModel, WriteModel};
use crate::table;
use crate::words;
use crate::words::B256;
use vstd::prelude::*;

verus! {

/// The stored records with those of a matching in their place.
pub open spec fn overlaid(
    stored: Map<Seq<u8>, OccurrenceModel>,
    records: Map<Seq<u8>, OccurrenceModel>,
) -> Map<Seq<u8>, OccurrenceModel> {
    stored.union_prefer_right(records)
}

/// A record after a matching: at most, it was given a target occurrence where it had none.
pub open spec fn matched_from(before: OccurrenceModel, after: OccurrenceModel) -> bool {
    &&& after == OccurrenceModel { target: after.target, ..before }
    &&& before.target is Some ==> after.target == before.target
}

/// The records after a matching.
pub open spec fn all_matched_from(
    before: Map<Seq<u8>, OccurrenceModel>,
    after: Map<Seq<u8>, OccurrenceModel>,
) -> bool {
    &&& forall|key: Seq<u8>| #[trigger] after.contains_key(key) <==> before.contains_key(key)
    &&& forall|key: Seq<u8>| #[trigger] after.contains_key(key) ==> matched_from(before[key], after[key])
}

/// Some record consumed this target occurrence.
pub open spec fn taken(records: Map<Seq<u8>, OccurrenceModel>, target: TargetObservation) -> bool {
    exists|key: Seq<u8>| #[trigger] records.contains_key(key) && records[key].target == Some(target)
}

/// A target occurrence is on record: unmatched, or with a record that consumed it.
pub open spec fn on_record(store: StoreModel, target: TargetObservation) -> bool {
    ||| store.unmatched.contains_key(model::target_key(target)) && store.unmatched[model::target_key(target)] == target
    ||| taken(store.records, target)
}

/// No record of a hash waits for a target occurrence while one of this hash is unmatched.
pub open spec fn joined(
    records: Map<Seq<u8>, OccurrenceModel>,
    unmatched: Map<Seq<u8>, TargetObservation>,
    hash: B256,
) -> bool {
    ||| forall|key: Seq<u8>| #[trigger] records.contains_key(key) && records[key].transaction.hash == hash
        ==> records[key].target is Some
    ||| forall|key: Seq<u8>| #[trigger] unmatched.contains_key(key) ==> unmatched[key].transaction_hash != hash
}

/// The unmatched target occurrences of a hash are all read when it is matched.
pub open spec fn all_read(m: EvidenceModel, hash: B256) -> bool {
    table::under_prefix(m.store.unmatched, hash.bytes(), model::MAX_REPEATS as nat).len() < model::MAX_REPEATS
}

/// Giving an unmatched target occurrence to an open record of its hash keeps each at one place.
proof fn lemma_pair(
    records: Map<Seq<u8>, OccurrenceModel>,
    at: StoreModel,
    record: Seq<u8>,
    key: Seq<u8>,
)
    requires
        consistency::targets_single(records, at.unmatched),
        consistency::targets_placed(at.unmatched, at.unmatched_by_height),
        records.contains_key(record),
        records[record].target is None,
        at.unmatched.contains_key(key),
        at.unmatched[key].transaction_hash == records[record].transaction.hash,
    ensures
        ({
            let target = at.unmatched[key];
            let after = at.write_all(EvidenceModel::matched_writes(key, target));
            let wider = records.insert(
                record,
                OccurrenceModel { target: Some(target), ..records[record] },
            );
            &&& after == (StoreModel {
                unmatched: at.unmatched.remove(key),
                unmatched_by_height: at.unmatched_by_height.remove(
                    model::location(target).key_bytes(),
                ),
                ..at
            })
            &&& consistency::targets_single(wider, after.unmatched)
            &&& consistency::targets_placed(after.unmatched, after.unmatched_by_height)
        }),
{
    let target = at.unmatched[key];
    let writes = EvidenceModel::matched_writes(key, target);
    assert(writes.drop_last().drop_last() =~= Seq::empty());
    assert(at.write_all(writes.drop_last().drop_last()) == at);
    assert(at.write_all(writes.drop_last()) == at.write(writes[0]));
    let after = at.write_all(writes);
    let place = model::location(target).key_bytes();
    assert forall|k: Seq<u8>| #[trigger] after.unmatched.contains_key(k) implies
        after.unmatched_by_height.contains_key(model::location(after.unmatched[k]).key_bytes())
        && after.unmatched_by_height[model::location(after.unmatched[k]).key_bytes()] == k by {
        assert(at.unmatched.contains_key(k));
    }
    assert forall|p: Seq<u8>| #[trigger] after.unmatched_by_height.contains_key(p) implies
        after.unmatched.contains_key(after.unmatched_by_height[p])
        && model::location(after.unmatched[after.unmatched_by_height[p]]).key_bytes() == p by {
        assert(at.unmatched_by_height.contains_key(p));
    }
    let wider = records.insert(record, OccurrenceModel { target: Some(target), ..records[record] });
    assert forall|k: Seq<u8>| #[trigger] wider.contains_key(k) implies (wider[k].target matches Some(t)
        ==> t.transaction_hash == wider[k].transaction.hash && !after.unmatched.contains_key(
        model::target_key(t),
    )) by {
        if k != record {
            assert(records.contains_key(k));
        }
    }
    assert forall|a: Seq<u8>, b: Seq<u8>| #[trigger] wider.contains_key(a) && #[trigger] wider.contains_key(b)
        && a != b implies (wider[a].target matches Some(x) ==> (wider[b].target matches Some(y)
        ==> model::target_key(x) != model::target_key(y))) by {
        assert(records.contains_key(a));
        assert(records.contains_key(b));
    }
}

/// Adding the stored records of a hash to those at hand changes nothing of the whole.
pub proof fn lemma_with_stored(m: EvidenceModel, records: Map<Seq<u8>, OccurrenceModel>, hash: B256, n: nat)
    requires
        m.consistent(),
        m.by_hash_error(hash) is None,
        n <= m.hash_keys(hash).len(),
        consistency::records_filed(records),
        records.dom().finite(),
    ensures
        ({
            let wider = m.with_stored_first(records, hash, n);
            &&& consistency::records_filed(wider)
            &&& wider.dom().finite()
            &&& overlaid(m.store.records, wider) == overlaid(m.store.records, records)
        }),
    decreases n,
{
    if n > 0 {
        let before = (n - 1) as nat;
        lemma_with_stored(m, records, hash, before);
        let rest = m.with_stored_first(records, hash, before);
        let keys = m.hash_keys(hash);
        fold::lemma_all_pass(keys.len(), m.hash_key_error(keys), n - 1);
        let (id, record) = m.indexed(keys[n - 1]);
        assert(m.store.records.contains_key(id.key_bytes()));
        assert(record.id().key_bytes() == id.key_bytes());
        let wider = m.with_stored_first(records, hash, n);
        assert(overlaid(m.store.records, wider) =~= overlaid(m.store.records, rest));
    }
}

/// The open records of a hash are the records of this hash without a target occurrence, each once.
pub proof fn lemma_open_records(records: Map<Seq<u8>, OccurrenceModel>, hash: B256)
    requires
        records.dom().finite(),
    ensures
        table::ascending(EvidenceModel::open_records(records, hash)),
        forall|i: int| 0 <= i < EvidenceModel::open_records(records, hash).len() ==> {
            &&& records.contains_key(#[trigger] EvidenceModel::open_records(records, hash)[i])
            &&& records[EvidenceModel::open_records(records, hash)[i]].transaction.hash == hash
            &&& records[EvidenceModel::open_records(records, hash)[i]].target is None
        },
        forall|key: Seq<u8>| #[trigger] records.contains_key(key) && records[key].transaction.hash == hash
            && records[key].target is None ==> EvidenceModel::open_records(records, hash).contains(key),
{
    table::lemma_finite_lists(records);
    let pred = |key: Seq<u8>| records[key].transaction.hash == hash && records[key].target is None;
    let open = EvidenceModel::open_records(records, hash);
    table::lemma_filtered(table::listed(records), pred);
    assert forall|i: int| 0 <= i < open.len() implies {
        &&& records.contains_key(#[trigger] open[i])
        &&& records[open[i]].transaction.hash == hash
        &&& records[open[i]].target is None
    } by {
        assert(open.contains(open[i]));
        assert(table::listed(records).contains(open[i]));
    }
    assert forall|key: Seq<u8>| #[trigger] records.contains_key(key) && records[key].transaction.hash == hash
        && records[key].target is None implies open.contains(key) by {
        assert(table::listed(records).contains(key));
    }
}

/// A key of an unmatched target occurrence begins with its hash.
proof fn lemma_target_key_prefix(target: TargetObservation, hash: B256)
    ensures
        bytes::starts_with(model::target_key(target), hash.bytes()) <==> target.transaction_hash == hash,
{
    state::law_index_keys_are_exact(
        target.transaction_hash,
        hash,
        model::location(target),
        model::location(target),
    );
}

/// The candidates of a hash are the unmatched target occurrences of this hash, as they stand after
/// the new ones were filed.
pub proof fn lemma_candidates(
    m: EvidenceModel,
    fresh: Map<Seq<u8>, TargetObservation>,
    hash: B256,
)
    requires
        m.consistent(),
        fresh.dom().finite(),
        forall|key: Seq<u8>| #[trigger] fresh.contains_key(key) ==> model::target_key(fresh[key]) == key,
    ensures
        ({
            let targets = m.candidates(fresh, hash);
            let all = m.store.unmatched.union_prefer_right(fresh);
            &&& targets.dom().finite()
            &&& forall|key: Seq<u8>| #[trigger] targets.contains_key(key) ==> {
                &&& all.contains_key(key)
                &&& all[key] == targets[key]
                &&& targets[key].transaction_hash == hash
                &&& bytes::starts_with(key, hash.bytes())
            }
        }),
{
    let targets = m.candidates(fresh, hash);
    let all = m.store.unmatched.union_prefer_right(fresh);
    let stored = table::under_prefix(m.store.unmatched, hash.bytes(), model::MAX_REPEATS as nat);
    table::lemma_finite_lists(m.store.unmatched);
    table::lemma_under_prefix(m.store.unmatched, hash.bytes(), model::MAX_REPEATS as nat);
    assert forall|key: Seq<u8>| #[trigger] targets.contains_key(key) implies {
        &&& all.contains_key(key)
        &&& all[key] == targets[key]
        &&& targets[key].transaction_hash == hash
        &&& bytes::starts_with(key, hash.bytes())
    } by {
        if fresh.contains_key(key) && fresh[key].transaction_hash == hash {
            lemma_target_key_prefix(fresh[key], hash);
        } else {
            assert(stored.contains(key));
            let i = choose|i: int| 0 <= i < stored.len() && stored[i] == key;
            assert(m.store.unmatched.contains_key(stored[i]));
            lemma_target_key_prefix(m.store.unmatched[key], hash);
            if fresh.contains_key(key) {
                lemma_target_key_prefix(fresh[key], hash);
            }
        }
    }
    assert(all.dom() =~= m.store.unmatched.dom().union(fresh.dom()));
    assert(targets.dom().subset_of(all.dom()));
    vstd::set_lib::lemma_set_subset_finite(all.dom(), targets.dom());
}

/// What a matching has reached: the records at hand, laid over the stored ones, and the unmatched
/// target occurrences that are left.
spec fn reached(
    m: EvidenceModel,
    given: Map<Seq<u8>, OccurrenceModel>,
    start: StoreModel,
    records: Map<Seq<u8>, OccurrenceModel>,
    at: StoreModel,
) -> bool {
    let whole = overlaid(m.store.records, records);
    &&& consistency::records_filed(records)
    &&& records.dom().finite()
    &&& all_matched_from(overlaid(m.store.records, given), whole)
    &&& consistency::targets_single(whole, at.unmatched)
    &&& consistency::targets_placed(at.unmatched, at.unmatched_by_height)
    &&& at == StoreModel { unmatched: at.unmatched, unmatched_by_height: at.unmatched_by_height, ..start }
    &&& forall|key: Seq<u8>| #[trigger] at.unmatched.contains_key(key) ==> start.unmatched.contains_key(key)
        && at.unmatched[key] == start.unmatched[key]
    &&& forall|key: Seq<u8>| #[trigger] whole.contains_key(key) ==> (whole[key].target matches Some(target)
        ==> whole[key].target == overlaid(m.store.records, given)[key].target || (
    start.unmatched.contains_key(model::target_key(target)) && start.unmatched[model::target_key(target)]
        == target))
    &&& forall|key: Seq<u8>| #[trigger] start.unmatched.contains_key(key) ==> at.unmatched.contains_key(key) || taken(
        whole,
        start.unmatched[key],
    )
}

/// The unmatched target occurrences of a hash are still all there.
spec fn untouched(start: StoreModel, at: StoreModel, hash: B256) -> bool {
    forall|key: Seq<u8>| #[trigger] start.unmatched.contains_key(key) && bytes::starts_with(key, hash.bytes())
        ==> at.unmatched.contains_key(key)
}

/// Matching the first `n` pairs of one hash.
proof fn lemma_match_pairs(
    m: EvidenceModel,
    given: Map<Seq<u8>, OccurrenceModel>,
    start: StoreModel,
    at: StoreModel,
    all: Map<Seq<u8>, OccurrenceModel>,
    targets: Map<Seq<u8>, TargetObservation>,
    hash: B256,
    n: nat,
    part: spec_fn(int) -> Seq<WriteModel>,
)
    requires
        reached(m, given, start, all, at),
        untouched(start, at, hash),
        targets.dom().finite(),
        forall|key: Seq<u8>| #[trigger] targets.contains_key(key) ==> {
            &&& start.unmatched.contains_key(key)
            &&& start.unmatched[key] == targets[key]
            &&& targets[key].transaction_hash == hash
            &&& bytes::starts_with(key, hash.bytes())
        },
        n <= EvidenceModel::pairs(EvidenceModel::open_records(all, hash), table::listed(targets)),
        part == (|i: int|
            EvidenceModel::matched_writes(
                table::listed(targets)[i],
                targets[table::listed(targets)[i]],
            )),
    ensures
        ({
            let after = at.write_all(fold::gathered(n, part));
            let open = EvidenceModel::open_records(all, hash);
            let keys = table::listed(targets);
            let records = EvidenceModel::assigned(all, open, keys, targets, n);
            &&& reached(m, given, start, records, after)
            &&& forall|key: Seq<u8>| #[trigger] at.unmatched.contains_key(key) && !bytes::starts_with(key, hash.bytes())
                ==> after.unmatched.contains_key(key)
            &&& forall|i: int| n <= i < keys.len() ==> after.unmatched.contains_key(#[trigger] keys[i])
            &&& forall|i: int| n <= i < open.len() ==> records.contains_key(#[trigger] open[i]) && records[open[i]] == all[open[i]]
            &&& forall|key: Seq<u8>| #[trigger] after.unmatched.contains_key(key) ==> at.unmatched.contains_key(key)
            &&& forall|i: int| 0 <= i < n ==> !after.unmatched.contains_key(#[trigger] keys[i])
            &&& forall|i: int| 0 <= i < n ==> records.contains_key(#[trigger] open[i]) && records[open[i]].target is Some
            &&& all_matched_from(all, records)
        }),
    decreases n,
{
    let open = EvidenceModel::open_records(all, hash);
    let keys = table::listed(targets);
    lemma_open_records(all, hash);
    table::lemma_finite_lists(targets);
    assert forall|i: int| 0 <= i < keys.len() implies targets.contains_key(#[trigger] keys[i]) by {
        assert(keys.contains(keys[i]));
    }
    if n > 0 {
        let before = (n - 1) as nat;
        lemma_match_pairs(m, given, start, at, all, targets, hash, before, part);
        store::lemma_write_all_concat(at, fold::gathered(before, part), part(n - 1));
        let mid = at.write_all(fold::gathered(before, part));
        let held = EvidenceModel::assigned(all, open, keys, targets, before);
        let whole = overlaid(m.store.records, held);
        let (slot, key) = (open[n - 1], keys[n - 1]);
        assert(held.contains_key(slot) && held[slot] == all[slot]);
        assert(mid.unmatched.contains_key(key));
        assert(mid.unmatched[key] == targets[key]);
        lemma_pair(whole, mid, slot, key);
        let records = EvidenceModel::assigned(all, open, keys, targets, n);
        let after = at.write_all(fold::gathered(n, part));
        let record = OccurrenceModel { target: Some(targets[key]), ..all[slot] };
        assert(records == held.insert(slot, record));
        assert(overlaid(m.store.records, records) =~= whole.insert(slot, record));
        assert(record.id() == all[slot].id());
        assert(all.contains_key(slot));
        assert forall|k: Seq<u8>| #[trigger] overlaid(m.store.records, records).contains_key(k) implies matched_from(
            overlaid(m.store.records, given)[k],
            overlaid(m.store.records, records)[k],
        ) by {
            assert(whole.contains_key(k));
            assert(matched_from(overlaid(m.store.records, given)[k], whole[k]));
        }
        assert forall|k: Seq<u8>| #[trigger] start.unmatched.contains_key(k) implies after.unmatched.contains_key(k) || taken(
            overlaid(m.store.records, records),
            start.unmatched[k],
        ) by {
            let wider = overlaid(m.store.records, records);
            if k == key {
                assert(wider.contains_key(slot) && wider[slot].target == Some(start.unmatched[k]));
            } else if !mid.unmatched.contains_key(k) {
                assert(taken(whole, start.unmatched[k]));
                let holder = choose|h: Seq<u8>| #[trigger] whole.contains_key(h) && whole[h].target == Some(start.unmatched[k]);
                assert(holder != slot);
                assert(wider.contains_key(holder) && wider[holder].target == Some(start.unmatched[k]));
            }
        }
        assert forall|i: int| 0 <= i < n implies records.contains_key(#[trigger] open[i]) && records[open[i]].target is Some by {
            if i < n - 1 {
                assert(held.contains_key(open[i]) && held[open[i]].target is Some);
            }
        }
        assert forall|k: Seq<u8>| #[trigger] records.contains_key(k) implies matched_from(all[k], records[k]) by {
            if k != slot {
                assert(held.contains_key(k));
            }
        }
        assert forall|i: int| n <= i < keys.len() implies after.unmatched.contains_key(#[trigger] keys[i]) by {
            if keys[i] == key {
                table::lemma_ascending_distinct(keys, i, n - 1);
            }
        }
        assert forall|i: int| n <= i < open.len() implies records.contains_key(#[trigger] open[i]) && records[open[i]] == all[open[i]] by {
            if open[i] == slot {
                table::lemma_ascending_distinct(open, i, n - 1);
            }
        }
    } else {
        assert forall|i: int| 0 <= i < keys.len() implies at.unmatched.contains_key(#[trigger] keys[i]) by {
            assert(targets.contains_key(keys[i]));
        }
    }
}

/// Matching one hash.
proof fn lemma_match_hash(
    m: EvidenceModel,
    given: Map<Seq<u8>, OccurrenceModel>,
    fresh: Map<Seq<u8>, TargetObservation>,
    start: StoreModel,
    records: Map<Seq<u8>, OccurrenceModel>,
    at: StoreModel,
    hash: B256,
)
    requires
        m.consistent(),
        m.by_hash_error(hash) is None,
        fresh.dom().finite(),
        forall|key: Seq<u8>| #[trigger] fresh.contains_key(key) ==> model::target_key(fresh[key]) == key,
        start.unmatched == m.store.unmatched.union_prefer_right(fresh),
        reached(m, given, start, records, at),
        untouched(start, at, hash),
    ensures
        ({
            let after = at.write_all(m.matching_writes(records, fresh, hash));
            let whole = overlaid(m.store.records, m.matched(records, fresh, hash));
            &&& reached(m, given, start, m.matched(records, fresh, hash), after)
            &&& forall|key: Seq<u8>| #[trigger] at.unmatched.contains_key(key) && !bytes::starts_with(key, hash.bytes())
                ==> after.unmatched.contains_key(key)
            &&& forall|key: Seq<u8>| #[trigger] after.unmatched.contains_key(key) ==> at.unmatched.contains_key(key)
            &&& all_matched_from(overlaid(m.store.records, records), whole)
            &&& all_read(m, hash) ==> joined(whole, after.unmatched, hash)
        }),
{
    let all = m.with_stored(records, hash);
    lemma_with_stored(m, records, hash, m.hash_keys(hash).len());
    let targets = m.candidates(fresh, hash);
    lemma_candidates(m, fresh, hash);
    let open = EvidenceModel::open_records(all, hash);
    let keys = table::listed(targets);
    let n = EvidenceModel::pairs(open, keys);
    let part = |i: int| EvidenceModel::matched_writes(keys[i], targets[keys[i]]);
    lemma_match_pairs(m, given, start, at, all, targets, hash, n, part);
    let after = at.write_all(m.matching_writes(records, fresh, hash));
    let matched = m.matched(records, fresh, hash);
    let whole = overlaid(m.store.records, matched);
    assert forall|key: Seq<u8>| #[trigger] whole.contains_key(key) implies matched_from(
        overlaid(m.store.records, all)[key],
        whole[key],
    ) by {
        assert(matched.contains_key(key) <==> all.contains_key(key));
    }
    if all_read(m, hash) {
        lemma_open_records(all, hash);
        if n == open.len() {
            assert forall|key: Seq<u8>| #[trigger] whole.contains_key(key) && whole[key].transaction.hash == hash implies whole[key].target is Some by {
                lemma_all_of_hash(m, records, hash, key);
                assert(matched.contains_key(key) && matched_from(all[key], matched[key]));
                if all[key].target is None {
                    assert(open.contains(key));
                    let i = choose|i: int| 0 <= i < open.len() && open[i] == key;
                    assert(matched[open[i]].target is Some);
                }
            }
        } else {
            assert forall|key: Seq<u8>| #[trigger] after.unmatched.contains_key(key) implies after.unmatched[key].transaction_hash != hash by {
                if after.unmatched[key].transaction_hash == hash {
                    assert(start.unmatched.contains_key(key));
                    lemma_all_candidates(m, fresh, hash, key);
                    table::lemma_finite_lists(targets);
                    assert(keys.contains(key));
                    let i = choose|i: int| 0 <= i < keys.len() && keys[i] == key;
                    assert(!after.unmatched.contains_key(keys[i]));
                }
            }
        }
    }
}

/// Every record of a hash takes part when the hash is matched.
pub proof fn lemma_all_of_hash(m: EvidenceModel, records: Map<Seq<u8>, OccurrenceModel>, hash: B256, key: Seq<u8>)
    requires
        m.consistent(),
        m.by_hash_error(hash) is None,
        consistency::records_filed(records),
        overlaid(m.store.records, records).contains_key(key),
        overlaid(m.store.records, records)[key].transaction.hash == hash,
    ensures
        m.with_stored(records, hash).contains_key(key),
{
    let keys = m.hash_keys(hash);
    lemma_stored_stay(m, records, hash, keys.len());
    if !records.contains_key(key) {
        let record = m.store.records[key];
        let entry = state::index_key(hash, record.id());
        table::lemma_finite_lists(m.store.hashes);
        table::lemma_under_prefix(m.store.hashes, hash.bytes(), (model::MAX_REPEATS + 1) as nat);
        state::law_index_keys_are_exact(hash, hash, record.id(), record.id());
        assert(m.store.hashes.contains_key(entry));
        assert(keys.contains(entry));
        let i = choose|i: int| 0 <= i < keys.len() && keys[i] == entry;
        state::law_keys_are_exact(record.id(), record.id());
        assert(m.indexed(keys[i]).0 == record.id());
    }
}

/// The records at hand and the stored ones of a hash stay at hand.
proof fn lemma_stored_stay(m: EvidenceModel, records: Map<Seq<u8>, OccurrenceModel>, hash: B256, n: nat)
    ensures
        forall|key: Seq<u8>| #[trigger] records.contains_key(key) ==> m.with_stored_first(records, hash, n).contains_key(key),
        forall|i: int| 0 <= i < n ==> m.with_stored_first(records, hash, n).contains_key(
            m.indexed(#[trigger] m.hash_keys(hash)[i]).0.key_bytes(),
        ),
    decreases n,
{
    if n > 0 {
        lemma_stored_stay(m, records, hash, (n - 1) as nat);
    }
}

/// Every unmatched target occurrence of a hash is a candidate when all of them are read.
pub proof fn lemma_all_candidates(m: EvidenceModel, fresh: Map<Seq<u8>, TargetObservation>, hash: B256, key: Seq<u8>)
    requires
        m.consistent(),
        all_read(m, hash),
        m.store.unmatched.union_prefer_right(fresh).contains_key(key),
        m.store.unmatched.union_prefer_right(fresh)[key].transaction_hash == hash,
    ensures
        m.candidates(fresh, hash).contains_key(key),
{
    if !fresh.contains_key(key) {
        table::lemma_finite_lists(m.store.unmatched);
        table::lemma_under_prefix(m.store.unmatched, hash.bytes(), model::MAX_REPEATS as nat);
        lemma_target_key_prefix(m.store.unmatched[key], hash);
    }
}

/// What is joined stays so while records keep their target occurrences and none is added.
proof fn lemma_stays_joined(
    before: Map<Seq<u8>, OccurrenceModel>,
    after: Map<Seq<u8>, OccurrenceModel>,
    unmatched: Map<Seq<u8>, TargetObservation>,
    left: Map<Seq<u8>, TargetObservation>,
    hash: B256,
)
    requires
        joined(before, unmatched, hash),
        all_matched_from(before, after),
        forall|key: Seq<u8>| #[trigger] left.contains_key(key) ==> unmatched.contains_key(key) && left[key] == unmatched[key],
    ensures
        joined(after, left, hash),
{
    if forall|key: Seq<u8>| #[trigger] before.contains_key(key) && before[key].transaction.hash == hash ==> before[key].target is Some {
        assert forall|key: Seq<u8>| #[trigger] after.contains_key(key) && after[key].transaction.hash == hash implies after[key].target is Some by {
            assert(before.contains_key(key));
        }
    }
}

/// Matching the first `n` hashes one after the other.
proof fn lemma_match_hashes(
    m: EvidenceModel,
    given: Map<Seq<u8>, OccurrenceModel>,
    fresh: Map<Seq<u8>, TargetObservation>,
    start: StoreModel,
    hashes: Seq<B256>,
    n: nat,
    part: spec_fn(int) -> Seq<WriteModel>,
)
    requires
        m.consistent(),
        n <= hashes.len(),
        forall|i: int| 0 <= i < hashes.len() ==> m.by_hash_error(#[trigger] hashes[i]) is None,
        forall|i: int, j: int| 0 <= i < j < hashes.len() ==> #[trigger] hashes[i] != #[trigger] hashes[j],
        fresh.dom().finite(),
        forall|key: Seq<u8>| #[trigger] fresh.contains_key(key) ==> model::target_key(fresh[key]) == key,
        start.unmatched == m.store.unmatched.union_prefer_right(fresh),
        reached(m, given, start, given, start),
        part == (|i: int|
            m.matching_writes(m.matched_first(given, fresh, hashes, i as nat), fresh, hashes[i])),
    ensures
        ({
            let after = start.write_all(fold::gathered(n, part));
            &&& reached(m, given, start, m.matched_first(given, fresh, hashes, n), after)
            &&& forall|i: int| n <= i < hashes.len() ==> untouched(start, after, #[trigger] hashes[i])
            &&& forall|i: int| 0 <= i < n && all_read(m, #[trigger] hashes[i]) ==> joined(
                overlaid(m.store.records, m.matched_first(given, fresh, hashes, n)),
                after.unmatched,
                hashes[i],
            )
        }),
    decreases n,
{
    if n > 0 {
        let before = (n - 1) as nat;
        lemma_match_hashes(m, given, fresh, start, hashes, before, part);
        store::lemma_write_all_concat(start, fold::gathered(before, part), part(n - 1));
        let at = start.write_all(fold::gathered(before, part));
        let after = start.write_all(fold::gathered(n, part));
        let records = m.matched_first(given, fresh, hashes, before);
        let hash = hashes[n - 1];
        assert(untouched(start, at, hash));
        lemma_match_hash(m, given, fresh, start, records, at, hash);
        assert forall|i: int| 0 <= i < n && all_read(m, #[trigger] hashes[i]) implies joined(
            overlaid(m.store.records, m.matched_first(given, fresh, hashes, n)),
            after.unmatched,
            hashes[i],
        ) by {
            if i < n - 1 {
                lemma_stays_joined(
                    overlaid(m.store.records, records),
                    overlaid(m.store.records, m.matched_first(given, fresh, hashes, n)),
                    at.unmatched,
                    after.unmatched,
                    hashes[i],
                );
            }
        }
        assert forall|i: int| n <= i < hashes.len() implies untouched(start, after, #[trigger] hashes[i]) by {
            assert(untouched(start, at, hashes[i]));
            assert(hashes[n - 1] != hashes[i]);
            assert forall|key: Seq<u8>| #[trigger] start.unmatched.contains_key(key) && bytes::starts_with(key, hashes[i].bytes()) implies after.unmatched.contains_key(key) by {
                assert(at.unmatched.contains_key(key));
                words::lemma_hash_len(hash);
                words::lemma_hash_len(hashes[i]);
                if bytes::starts_with(key, hash.bytes()) {
                    words::lemma_hash_injective(hash, hashes[i]);
                }
            }
        }
    }
}

/// Each hash of a matching is handled once.
pub proof fn lemma_hash_list(records: Map<Seq<u8>, OccurrenceModel>, targets: Seq<TargetObservation>)
    requires
        records.dom().finite(),
    ensures
        ({
            let hashes = EvidenceModel::hash_list(records, targets);
            forall|i: int, j: int| 0 <= i < j < hashes.len() ==> #[trigger] hashes[i] != #[trigger] hashes[j]
        }),
        table::lists(
            table::listed(EvidenceModel::hashes_of(records, targets)),
            EvidenceModel::hashes_of(records, targets),
        ),
{
    let map = EvidenceModel::hashes_of(records, targets);
    let of_records = records.dom().map(|key: Seq<u8>| records[key].transaction.hash.bytes());
    let of_targets = targets.map_values(|target: TargetObservation| target.transaction_hash.bytes()).to_set();
    records.dom().lemma_map_finite(|key: Seq<u8>| records[key].transaction.hash.bytes());
    vstd::seq_lib::seq_to_set_is_finite(
        targets.map_values(|target: TargetObservation| target.transaction_hash.bytes()),
    );
    assert forall|key: Seq<u8>| map.dom().contains(key) implies of_records.union(of_targets).contains(key) by {
        let hash = choose|hash: B256| #[trigger] hash.bytes() == key && EvidenceModel::concerns(records, targets, hash);
        if exists|k: Seq<u8>| #[trigger] records.contains_key(k) && records[k].transaction.hash == hash {
            let k = choose|k: Seq<u8>| #[trigger] records.contains_key(k) && records[k].transaction.hash == hash;
            assert(records.dom().contains(k));
            assert(of_records.contains(key));
        } else {
            let i = choose|i: int| 0 <= i < targets.len() && (#[trigger] targets[i]).transaction_hash == hash;
            let list = targets.map_values(|target: TargetObservation| target.transaction_hash.bytes());
            assert(list[i] == key);
            assert(list.contains(key));
        }
    }
    vstd::set_lib::lemma_set_subset_finite(of_records.union(of_targets), map.dom());
    table::lemma_finite_lists(map);
    let keys = table::listed(map);
    let hashes = EvidenceModel::hash_list(records, targets);
    assert forall|i: int, j: int| 0 <= i < j < hashes.len() implies #[trigger] hashes[i] != #[trigger] hashes[j] by {
        assert(keys.contains(keys[i]));
        assert(keys.contains(keys[j]));
        let a = choose|hash: B256| #[trigger] hash.bytes() == keys[i];
        let b = choose|hash: B256| #[trigger] hash.bytes() == keys[j];
        assert(map[keys[i]] == a);
        assert(map[keys[j]] == b);
        if a == b {
            table::lemma_ascending_distinct(keys, i, j);
        }
    }
}

/// The places of new target occurrences are new, and no two of them are at one place.
pub open spec fn new_places(at: Map<Seq<u8>, Seq<u8>>, targets: Seq<TargetObservation>) -> bool {
    &&& forall|i: int| 0 <= i < targets.len() ==> !at.contains_key(
        model::location(#[trigger] targets[i]).key_bytes(),
    )
    &&& forall|i: int, j: int| 0 <= i < j < targets.len() ==> model::location(#[trigger] targets[i])
        != model::location(#[trigger] targets[j])
}

/// Every target occurrence stands under its own key.
pub open spec fn keyed(targets: Map<Seq<u8>, TargetObservation>) -> bool {
    forall|key: Seq<u8>| #[trigger] targets.contains_key(key) ==> model::target_key(targets[key]) == key
}

/// What filing the first `n` new target occurrences does.
proof fn lemma_incoming_filed(
    at: StoreModel,
    targets: Seq<TargetObservation>,
    n: nat,
    part: spec_fn(int) -> Seq<WriteModel>,
)
    requires
        n <= targets.len(),
        part == (|i: int| EvidenceModel::unmatched_writes(targets[i])),
        new_places(at.unmatched_by_height, targets),
        keyed(at.unmatched),
        consistency::targets_placed(at.unmatched, at.unmatched_by_height),
    ensures
        ({
            let after = at.write_all(fold::gathered(n, part));
            &&& keyed(after.unmatched)
            &&& after == StoreModel {
                unmatched: at.unmatched.union_prefer_right(EvidenceModel::by_target_key(targets.take(n as int))),
                unmatched_by_height: after.unmatched_by_height,
                ..at
            }
            &&& consistency::targets_placed(after.unmatched, after.unmatched_by_height)
            &&& forall|i: int| n <= i < targets.len() ==> !after.unmatched_by_height.contains_key(
                model::location(#[trigger] targets[i]).key_bytes(),
            )
        }),
    decreases n,
{
    if n == 0 {
        assert(targets.take(0) =~= Seq::empty());
        assert(at.unmatched.union_prefer_right(EvidenceModel::by_target_key(targets.take(0))) =~= at.unmatched);
    } else {
        let before = (n - 1) as nat;
        lemma_incoming_filed(at, targets, before, part);
        store::lemma_write_all_concat(at, fold::gathered(before, part), part(n - 1));
        let mid = at.write_all(fold::gathered(before, part));
        let after = at.write_all(fold::gathered(n, part));
        let target = targets[n - 1];
        let key = model::target_key(target);
        let place = model::location(target).key_bytes();
        let writes = EvidenceModel::unmatched_writes(target);
        assert(writes.drop_last().drop_last() =~= Seq::empty());
        assert(mid.write_all(writes.drop_last().drop_last()) == mid);
        assert(mid.write_all(writes.drop_last()) == mid.write(writes[0]));
        assert(after.unmatched == mid.unmatched.insert(key, target));
        assert(after.unmatched_by_height == mid.unmatched_by_height.insert(place, key));
        assert(targets.take(n as int).drop_last() =~= targets.take(before as int));
        assert(targets.take(n as int).last() == target);
        assert(after.unmatched =~= at.unmatched.union_prefer_right(
            EvidenceModel::by_target_key(targets.take(n as int)),
        ));
        assert(!mid.unmatched_by_height.contains_key(place));
        assert forall|k: Seq<u8>| #[trigger] after.unmatched.contains_key(k) implies
            after.unmatched_by_height.contains_key(model::location(after.unmatched[k]).key_bytes())
            && after.unmatched_by_height[model::location(after.unmatched[k]).key_bytes()] == k by {
            if k != key {
                assert(mid.unmatched.contains_key(k));
            }
        }
        assert forall|p: Seq<u8>| #[trigger] after.unmatched_by_height.contains_key(p) implies
            after.unmatched.contains_key(after.unmatched_by_height[p])
            && model::location(after.unmatched[after.unmatched_by_height[p]]).key_bytes() == p by {
            if p != place {
                assert(mid.unmatched_by_height.contains_key(p));
                let other = mid.unmatched_by_height[p];
                if other == key {
                    state::law_index_keys_are_exact(
                        target.transaction_hash,
                        mid.unmatched[key].transaction_hash,
                        model::location(target),
                        model::location(mid.unmatched[key]),
                    );
                }
            }
        }
        assert forall|i: int| n <= i < targets.len() implies !after.unmatched_by_height.contains_key(
            model::location(#[trigger] targets[i]).key_bytes(),
        ) by {
            assert(model::location(targets[n - 1]) != model::location(targets[i]));
            state::law_keys_are_exact(model::location(targets[i]), model::location(target));
        }
    }
}

/// What filing the first `n` records of a matching does.
proof fn lemma_records_written(
    m: EvidenceModel,
    at: StoreModel,
    records: Map<Seq<u8>, OccurrenceModel>,
    n: nat,
    part: spec_fn(int) -> Seq<WriteModel>,
)
    requires
        records.dom().finite(),
        consistency::records_filed(records),
        n <= table::listed(records).len(),
        part == (|i: int| m.record_writes(records[table::listed(records)[i]])),
        consistency::records_filed(at.records),
        consistency::marks_right(at),
    ensures
        ({
            let after = at.write_all(fold::gathered(n, part));
            &&& after == StoreModel {
                records: after.records,
                clean: after.clean,
                pending: after.pending,
                recovery: after.recovery,
                ..at
            }
            &&& consistency::records_filed(after.records)
            &&& consistency::marks_right(after)
            &&& forall|key: Seq<u8>| #[trigger] after.records.contains_key(key) <==> at.records.contains_key(key)
                || table::listed(records).take(n as int).contains(key)
            &&& forall|key: Seq<u8>| #[trigger] after.records.contains_key(key) ==> after.records[key] == (
                if table::listed(records).take(n as int).contains(key) {
                    records[key]
                } else {
                    at.records[key]
                })
        }),
    decreases n,
{
    table::lemma_finite_lists(records);
    let keys = table::listed(records);
    if n > 0 {
        let before = (n - 1) as nat;
        lemma_records_written(m, at, records, before, part);
        store::lemma_write_all_concat(at, fold::gathered(before, part), part(n - 1));
        let mid = at.write_all(fold::gathered(before, part));
        let after = at.write_all(fold::gathered(n, part));
        let key = keys[n - 1];
        assert(keys.contains(key));
        assert(records[key].id().key_bytes() == key);
        consistency::lemma_record_written(mid, m, records[key]);
        consistency::lemma_record_marks(mid, m, records[key]);
        assert forall|k: Seq<u8>| #[trigger] after.records.contains_key(k) <==> at.records.contains_key(k)
            || keys.take(n as int).contains(k) by {
            lemma_take_contains(keys, n, k);
            assert(mid.records.contains_key(k) || !mid.records.contains_key(k));
        }
        assert forall|k: Seq<u8>| #[trigger] after.records.contains_key(k) implies after.records[k] == (
            if keys.take(n as int).contains(k) {
                records[k]
            } else {
                at.records[k]
            }) by {
            lemma_take_contains(keys, n, k);
            assert(mid.records.contains_key(k) || !mid.records.contains_key(k));
        }
    }
}

proof fn lemma_take_contains(keys: Seq<Seq<u8>>, n: nat, key: Seq<u8>)
    requires
        0 < n <= keys.len(),
    ensures
        keys.take(n as int).contains(key) <==> keys.take(n - 1).contains(key) || keys[n - 1] == key,
{
    let (wide, narrow) = (keys.take(n as int), keys.take(n - 1));
    if wide.contains(key) {
        let i = choose|i: int| 0 <= i < wide.len() && wide[i] == key;
        if i < n - 1 {
            assert(narrow[i] == key);
        }
    }
    if narrow.contains(key) {
        let i = choose|i: int| 0 <= i < narrow.len() && narrow[i] == key;
        assert(wide[i] == key);
    }
    assert(wide[n - 1] == keys[n - 1]);
}

/// The records that a matching is given: stored ones as they are stored, others without a target
/// occurrence.
pub open spec fn given_right(m: EvidenceModel, given: Map<Seq<u8>, OccurrenceModel>) -> bool {
    &&& consistency::records_filed(given)
    &&& given.dom().finite()
    &&& forall|key: Seq<u8>| #[trigger] given.contains_key(key) ==> if m.store.records.contains_key(key) {
        given[key] == m.store.records[key]
    } else {
        given[key].target is None
    }
}

/// New target occurrences: at new places, and consumed by no record.
pub open spec fn incoming_right(m: EvidenceModel, targets: Seq<TargetObservation>) -> bool {
    &&& new_places(m.store.unmatched_by_height, targets)
    &&& forall|key: Seq<u8>, i: int| #[trigger] m.store.records.contains_key(key) && 0 <= i < targets.len()
        ==> (m.store.records[key].target matches Some(target) ==> model::target_key(target)
        != model::target_key(#[trigger] targets[i]))
}

/// What a matching does to columns that agree with the store on records, their indexes and the
/// unmatched target occurrences.
pub proof fn lemma_reconciled(
    m: EvidenceModel,
    at: StoreModel,
    given: Map<Seq<u8>, OccurrenceModel>,
    targets: Seq<TargetObservation>,
)
    requires
        m.consistent(),
        m.reconcile_error(given, targets) is None,
        at.records == m.store.records,
        at.unmatched == m.store.unmatched,
        at.unmatched_by_height == m.store.unmatched_by_height,
        at.pending == m.store.pending,
        at.clean == m.store.clean,
        at.recovery == m.store.recovery,
        given_right(m, given),
        incoming_right(m, targets),
    ensures
        ({
            let after = at.write_all(m.reconcile_writes(given, targets));
            let before = overlaid(m.store.records, given);
            let filed = m.store.unmatched.union_prefer_right(EvidenceModel::by_target_key(targets));
            &&& after == StoreModel {
                records: after.records,
                unmatched: after.unmatched,
                unmatched_by_height: after.unmatched_by_height,
                pending: after.pending,
                clean: after.clean,
                recovery: after.recovery,
                ..at
            }
            &&& after.records == overlaid(m.store.records, m.reconciled(given, targets))
            &&& all_matched_from(before, after.records)
            &&& consistency::records_filed(after.records)
            &&& consistency::marks_right(after)
            &&& consistency::targets_single(after.records, after.unmatched)
            &&& consistency::targets_placed(after.unmatched, after.unmatched_by_height)
            &&& forall|key: Seq<u8>| #[trigger] after.unmatched.contains_key(key) ==> filed.contains_key(key)
                && after.unmatched[key] == filed[key]
            &&& forall|key: Seq<u8>| #[trigger] after.records.contains_key(key) ==> (after.records[key].target matches Some(target)
                ==> after.records[key].target == before[key].target || (filed.contains_key(model::target_key(target))
                && filed[model::target_key(target)] == target))
            &&& forall|key: Seq<u8>| #[trigger] filed.contains_key(key) ==> after.unmatched.contains_key(key) || taken(
                after.records,
                filed[key],
            )
            &&& forall|hash: B256| #[trigger] EvidenceModel::concerns(given, targets, hash) && all_read(m, hash)
                ==> joined(after.records, after.unmatched, hash)
        }),
{
    let hashes = EvidenceModel::hash_list(given, targets);
    let fresh = EvidenceModel::by_target_key(targets);
    let records = m.reconciled(given, targets);
    let part_a = |i: int| EvidenceModel::unmatched_writes(targets[i]);
    let part_b = |i: int| m.matching_writes(m.matched_first(given, fresh, hashes, i as nat), fresh, hashes[i]);
    let keys = table::listed(records);
    let part_c = |i: int| m.record_writes(records[keys[i]]);
    let a = fold::gathered(targets.len(), part_a);
    let b = fold::gathered(hashes.len(), part_b);
    let c = fold::gathered(keys.len(), part_c);
    assert(m.reconcile_writes(given, targets) == a + b + c);
    store::lemma_write_all_concat(at, a + b, c);
    store::lemma_write_all_concat(at, a, b);
    let start = at.write_all(a);
    let matched = start.write_all(b);
    let after = matched.write_all(c);
    // New target occurrences.
    lemma_incoming_filed(at, targets, targets.len(), part_a);
    assert(targets.take(targets.len() as int) =~= targets);
    lemma_by_target_key_finite(targets);
    let whole = overlaid(m.store.records, given);
    assert forall|key: Seq<u8>| #[trigger] whole.contains_key(key) implies (whole[key].target matches Some(target)
        ==> target.transaction_hash == whole[key].transaction.hash && !start.unmatched.contains_key(
        model::target_key(target),
    )) by {
        if whole[key].target is Some {
            let target = whole[key].target.unwrap();
            assert(m.store.records.contains_key(key));
            assert(whole[key] == m.store.records[key]);
            crate::evidence::reconcile::lemma_by_target_key(targets, model::target_key(target));
        }
    }
    assert forall|x: Seq<u8>, y: Seq<u8>| #[trigger] whole.contains_key(x) && #[trigger] whole.contains_key(y)
        && x != y implies (whole[x].target matches Some(s) ==> (whole[y].target matches Some(t)
        ==> model::target_key(s) != model::target_key(t))) by {
        if whole[x].target is Some && whole[y].target is Some {
            assert(m.store.records.contains_key(x));
            assert(m.store.records.contains_key(y));
        }
    }
    assert(reached(m, given, start, given, start));
    // Matching, hash by hash.
    lemma_hash_list(given, targets);
    assert forall|i: int| 0 <= i < hashes.len() implies m.by_hash_error(#[trigger] hashes[i]) is None by {
        let check = |i: int| m.by_hash_error(hashes[i]);
        fold::lemma_all_pass(hashes.len(), check, i);
        assert(check(i) is None);
    }
    lemma_match_hashes(m, given, fresh, start, hashes, hashes.len(), part_b);
    // The records.
    assert(matched.records == m.store.records);
    assert(consistency::marks_right(matched)) by {
        assert(consistency::marks_right(m.store));
    }
    lemma_records_written(m, matched, records, keys.len(), part_c);
    table::lemma_finite_lists(records);
    assert(keys.take(keys.len() as int) =~= keys);
    assert(after.records =~= overlaid(m.store.records, records)) by {
        assert forall|key: Seq<u8>| #[trigger] after.records.contains_key(key) <==> overlaid(m.store.records, records).contains_key(key) by {
            assert(keys.contains(key) <==> records.contains_key(key));
        }
        assert forall|key: Seq<u8>| #[trigger] after.records.contains_key(key) implies after.records[key] == overlaid(m.store.records, records)[key] by {
            assert(keys.contains(key) <==> records.contains_key(key));
        }
    }
    assert forall|hash: B256| #[trigger] EvidenceModel::concerns(given, targets, hash) && all_read(m, hash) implies joined(
        after.records,
        after.unmatched,
        hash,
    ) by {
        lemma_listed_hash(given, targets, hash);
        let i = choose|i: int| 0 <= i < hashes.len() && hashes[i] == hash;
        assert(all_read(m, hashes[i]));
    }
}

/// A hash that a matching is about is among those that it handles.
pub proof fn lemma_listed_hash(records: Map<Seq<u8>, OccurrenceModel>, targets: Seq<TargetObservation>, hash: B256)
    requires
        records.dom().finite(),
        EvidenceModel::concerns(records, targets, hash),
    ensures
        EvidenceModel::hash_list(records, targets).contains(hash),
{
    lemma_hash_list(records, targets);
    let map = EvidenceModel::hashes_of(records, targets);
    let keys = table::listed(map);
    let key = hash.bytes();
    assert(map.contains_key(key));
    assert(keys.contains(key));
    let i = choose|i: int| 0 <= i < keys.len() && keys[i] == key;
    let listed = map[key];
    assert(listed.bytes() == key);
    words::lemma_hash_injective(listed, hash);
    assert(EvidenceModel::hash_list(records, targets)[i] == hash);
}

/// A list has finitely many target occurrences, each under its own key.
pub proof fn lemma_by_target_key_finite(targets: Seq<TargetObservation>)
    ensures
        EvidenceModel::by_target_key(targets).dom().finite(),
        keyed(EvidenceModel::by_target_key(targets)),
    decreases targets.len(),
{
    if targets.len() > 0 {
        lemma_by_target_key_finite(targets.drop_last());
    }
}

} // verus!
