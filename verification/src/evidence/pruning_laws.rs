//! Retention, told by the age of what goes.

use crate::bytes;
use crate::evidence::model;
use crate::evidence::model::EvidenceModel;
use crate::evidence::retention;
use crate::evidence::retention_laws;
use crate::evidence::Progress;
use crate::fold;
use crate::state;
use crate::state::OccurrenceId;
use crate::store;
use crate::store::{StoreModel, WriteModel};
use crate::table;
use crate::words::B256;
use vstd::prelude::*;

verus! {

/// Of entries in source order the old ones come first: exactly those below the floor are counted.
proof fn lemma_below_is_exact(keys: Seq<Seq<u8>>, floor: u64, i: int)
    requires
        table::ascending(keys),
        forall|k: int| 0 <= k < keys.len() ==> (#[trigger] keys[k]).len() == 12,
        0 <= i < keys.len(),
    ensures
        i < EvidenceModel::below(keys, floor) <==> state::decoded(keys[i])->0.source_height < floor,
        EvidenceModel::below(keys, floor) <= keys.len(),
{
    lemma_below_bound(keys, floor);
    if i < EvidenceModel::below(keys, floor) {
        retention::lemma_below_all(keys, floor, i);
    }
    state::law_decoding_keeps_the_key(keys[i]);
    if state::decoded(keys[i])->0.source_height < floor {
        assert forall|k: int| 0 <= k < i implies EvidenceModel::old_enough(#[trigger] keys[k], floor) by {
            state::law_decoding_keeps_the_key(keys[k]);
            state::law_keys_are_ordered(state::decoded(keys[k])->0, state::decoded(keys[i])->0);
        }
        retention::lemma_below_reaches(keys, floor, i as nat);
    }
}

proof fn lemma_below_bound(keys: Seq<Seq<u8>>, floor: u64)
    ensures
        EvidenceModel::below(keys, floor) <= keys.len(),
    decreases keys.len(),
{
    if keys.len() > 0 {
        lemma_below_bound(keys.drop_first(), floor);
    }
}

/// What removing the first `n` entries of the clean index does to the records.
proof fn lemma_clean_forgotten(m: EvidenceModel, at: StoreModel, keys: Seq<Seq<u8>>, n: nat, part: spec_fn(int) -> Seq<WriteModel>)
    requires
        n <= keys.len(),
        part == (|i: int| m.forget_clean(keys[i])),
        table::ascending(keys),
        at.records.dom().finite(),
        forall|i: int| 0 <= i < keys.len() ==> at.records.contains_key(#[trigger] keys[i]),
    ensures
        ({
            let after = at.write_all(fold::gathered(n, part));
            &&& forall|key: Seq<u8>| #[trigger] after.records.contains_key(key) <==> at.records.contains_key(key)
                && !keys.take(n as int).contains(key)
            &&& forall|key: Seq<u8>| #[trigger] after.records.contains_key(key) ==> after.records[key] == at.records[key]
            &&& after.records.dom().finite()
            &&& after.records.dom().len() == at.records.dom().len() - n
            &&& after.unmatched == at.unmatched
        }),
    decreases n,
{
    if n > 0 {
        let before = (n - 1) as nat;
        lemma_clean_forgotten(m, at, keys, before, part);
        store::lemma_write_all_concat(at, fold::gathered(before, part), part(n - 1));
        let mid = at.write_all(fold::gathered(before, part));
        let after = at.write_all(fold::gathered(n, part));
        let writes = part(n - 1);
        let w2 = writes.drop_last();
        let w1 = w2.drop_last();
        assert(w1.drop_last() =~= Seq::empty());
        assert(mid.write_all(w1.drop_last()) == mid);
        assert(mid.write_all(w1) == mid.write(writes[0]));
        assert(mid.write_all(w2) == mid.write(writes[0]).write(writes[1]));
        assert(after.records == mid.records.remove(keys[n - 1]));
        let (narrow, wide) = (keys.take(before as int), keys.take(n as int));
        assert(wide[n - 1] == keys[n - 1]);
        assert(!narrow.contains(keys[n - 1])) by {
            if narrow.contains(keys[n - 1]) {
                let i = choose|i: int| 0 <= i < narrow.len() && narrow[i] == keys[n - 1];
                assert(keys[i] == keys[n - 1]);
                table::lemma_ascending_distinct(keys, i, n - 1);
            }
        }
        assert(at.records.contains_key(keys[n - 1]));
        assert(mid.records.contains_key(keys[n - 1]));
        assert forall|key: Seq<u8>| wide.contains(key) <==> narrow.contains(key) || key == keys[n - 1] by {
            if wide.contains(key) {
                let i = choose|i: int| 0 <= i < wide.len() && wide[i] == key;
                if i < before {
                    assert(narrow[i] == key);
                }
            }
            if narrow.contains(key) {
                let i = choose|i: int| 0 <= i < narrow.len() && narrow[i] == key;
                assert(wide[i] == key);
            }
        }
        assert(after.records.dom() =~= mid.records.dom().remove(keys[n - 1]));
    } else {
        assert(at.write_all(fold::gathered(0, part)) == at);
    }
}

/// What removing the first `n` places does to the unmatched target occurrences.
proof fn lemma_unmatched_forgotten(m: EvidenceModel, at: StoreModel, places: Seq<Seq<u8>>, n: nat, part: spec_fn(int) -> Seq<WriteModel>)
    requires
        n <= places.len(),
        part == (|i: int| m.forget_unmatched(places[i])),
        table::ascending(places),
        at.unmatched.dom().finite(),
        at.unmatched == m.store.unmatched,
        m.consistent(),
        forall|i: int| 0 <= i < places.len() ==> m.store.unmatched_by_height.contains_key(#[trigger] places[i]),
    ensures
        ({
            let after = at.write_all(fold::gathered(n, part));
            &&& forall|key: Seq<u8>| #[trigger] after.unmatched.contains_key(key) <==> at.unmatched.contains_key(key)
                && !places.take(n as int).contains(model::location(at.unmatched[key]).key_bytes())
            &&& forall|key: Seq<u8>| #[trigger] after.unmatched.contains_key(key) ==> after.unmatched[key] == at.unmatched[key]
            &&& after.unmatched.dom().finite()
            &&& after.unmatched.dom().len() == at.unmatched.dom().len() - n
            &&& after.records == at.records
        }),
    decreases n,
{
    if n > 0 {
        let before = (n - 1) as nat;
        lemma_unmatched_forgotten(m, at, places, before, part);
        store::lemma_write_all_concat(at, fold::gathered(before, part), part(n - 1));
        let mid = at.write_all(fold::gathered(before, part));
        let after = at.write_all(fold::gathered(n, part));
        let writes = part(n - 1);
        assert(writes.drop_last().drop_last() =~= Seq::empty());
        assert(mid.write_all(writes.drop_last().drop_last()) == mid);
        assert(mid.write_all(writes.drop_last()) == mid.write(writes[0]));
        let gone = m.store.unmatched_by_height[places[n - 1]];
        assert(after.unmatched == mid.unmatched.remove(gone));
        let (narrow, wide) = (places.take(before as int), places.take(n as int));
        assert(wide[n - 1] == places[n - 1]);
        assert(m.store.unmatched_by_height.contains_key(places[n - 1]));
        assert(at.unmatched.contains_key(gone) && model::location(at.unmatched[gone]).key_bytes() == places[n - 1]);
        assert(!narrow.contains(places[n - 1])) by {
            if narrow.contains(places[n - 1]) {
                let i = choose|i: int| 0 <= i < narrow.len() && narrow[i] == places[n - 1];
                assert(places[i] == places[n - 1]);
                table::lemma_ascending_distinct(places, i, n - 1);
            }
        }
        assert(mid.unmatched.contains_key(gone));
        assert forall|place: Seq<u8>| wide.contains(place) <==> narrow.contains(place) || place == places[n - 1] by {
            if wide.contains(place) {
                let i = choose|i: int| 0 <= i < wide.len() && wide[i] == place;
                if i < before {
                    assert(narrow[i] == place);
                }
            }
            if narrow.contains(place) {
                let i = choose|i: int| 0 <= i < narrow.len() && narrow[i] == place;
                assert(wide[i] == place);
            }
        }
        assert forall|key: Seq<u8>| #[trigger] after.unmatched.contains_key(key) <==> at.unmatched.contains_key(key)
            && !wide.contains(model::location(at.unmatched[key]).key_bytes()) by {
            if at.unmatched.contains_key(key) && model::location(at.unmatched[key]).key_bytes() == places[n - 1] {
                assert(m.store.unmatched.contains_key(key));
                assert(key == gone);
            }
        }
        assert(after.unmatched.dom() =~= mid.unmatched.dom().remove(gone));
    } else {
        assert(at.write_all(fold::gathered(0, part)) == at);
    }
}

/// What retention leaves, entry by entry.
proof fn lemma_pruned(m: EvidenceModel, retain_blocks: u64)
    requires
        m.consistent(),
    ensures
        m.retire(retain_blocks) is Ok,
        ({
            let after = m.settle(m.retire(retain_blocks)->Ok_0);
            let (a, b) = (m.retired_unmatched(retain_blocks), m.retired_clean(retain_blocks));
            &&& a <= m.unmatched_keys().len()
            &&& b <= m.clean_keys().len()
            &&& forall|key: Seq<u8>| #[trigger] after.store.records.contains_key(key) <==> m.store.records.contains_key(key)
                && !m.clean_keys().take(b as int).contains(key)
            &&& forall|key: Seq<u8>| #[trigger] after.store.records.contains_key(key) ==> after.store.records[key]
                == m.store.records[key]
            &&& forall|key: Seq<u8>| #[trigger] after.store.unmatched.contains_key(key) <==> m.store.unmatched.contains_key(key)
                && !m.unmatched_keys().take(a as int).contains(model::location(m.store.unmatched[key]).key_bytes())
            &&& forall|key: Seq<u8>| #[trigger] after.store.unmatched.contains_key(key) ==> after.store.unmatched[key]
                == m.store.unmatched[key]
            &&& after.store.records.dom().len() == m.store.records.dom().len() - b
            &&& after.store.unmatched.dom().len() == m.store.unmatched.dom().len() - a
            &&& after.progress == (Progress {
                archived_unmatched: (m.progress.archived_unmatched + a) as u64,
                archived_included: (m.progress.archived_included + b) as u64,
                ..m.progress
            })
        }),
{
    retention_laws::law_a_consistent_store_has_no_index_errors(m, B256 { hi: 0, lo: 0 }, retain_blocks);
    let places = m.unmatched_keys();
    let clean = m.clean_keys();
    let (a, b) = (m.retired_unmatched(retain_blocks), m.retired_clean(retain_blocks));
    lemma_below_bound(places, m.unmatched_floor(retain_blocks));
    lemma_below_bound(clean, m.clean_floor(retain_blocks));
    table::lemma_finite_lists(m.store.unmatched_by_height);
    table::lemma_finite_lists(m.store.clean);
    table::lemma_under_prefix(m.store.unmatched_by_height, Seq::empty(), model::SWEEP as nat);
    table::lemma_under_prefix(m.store.clean, Seq::empty(), model::SWEEP as nat);
    let part_a = |i: int| m.forget_unmatched(places[i]);
    let part_b = |i: int| m.forget_clean(clean[i]);
    lemma_unmatched_forgotten(m, m.store, places, a, part_a);
    let mid = m.store.write_all(fold::gathered(a, part_a));
    assert forall|i: int| 0 <= i < clean.len() implies mid.records.contains_key(#[trigger] clean[i]) by {
        assert(m.store.clean.contains_key(clean[i]));
    }
    lemma_clean_forgotten(m, mid, clean, b, part_b);
    store::lemma_write_all_concat(m.store, fold::gathered(a, part_a), fold::gathered(b, part_b));
    let after = m.settle(m.retire(retain_blocks)->Ok_0);
    if a + b == 0 {
        assert(after == m);
        assert(m.store.write_all(fold::gathered(a, part_a)) == m.store);
        assert(clean.take(0).len() == 0 && places.take(0).len() == 0);
    } else {
        let commit = m.retire(retain_blocks)->Ok_0->0;
        assert(commit.writes == fold::gathered(a, part_a) + fold::gathered(b, part_b));
        assert(after.store.records == mid.write_all(fold::gathered(b, part_b)).records);
        assert(after.store.unmatched == mid.unmatched);
    }
}

/// A record outlives retention if it lies no more than `retain_blocks` source blocks behind the source
/// cursor, whatever it is. One further behind goes if and only if it is a clean inclusion; a sweep that
/// is full, with ten thousand clean inclusions to read, leaves the later ones for the next.
pub proof fn law_retention_goes_by_the_age_in_source_blocks(m: EvidenceModel, retain_blocks: u64, id: OccurrenceId)
    requires
        m.consistent(),
        m.occurrence(id) is Some,
    ensures
        m.retire(retain_blocks) is Ok,
        ({
            let after = m.settle(m.retire(retain_blocks)->Ok_0);
            &&& id.source_height + retain_blocks >= m.progress.source.height ==> after.occurrence(id) == m.occurrence(id)
            &&& !m.occurrence(id)->0.clean_inclusion() ==> after.occurrence(id) == m.occurrence(id)
            &&& m.clean_keys().len() < 10_000 && m.occurrence(id)->0.clean_inclusion() && id.source_height + retain_blocks
                < m.progress.source.height ==> after.occurrence(id) is None
            &&& after.occurrence(id) is Some ==> after.occurrence(id) == m.occurrence(id)
        }),
{
    lemma_pruned(m, retain_blocks);
    let key = id.key_bytes();
    let clean = m.clean_keys();
    let b = m.retired_clean(retain_blocks);
    table::lemma_finite_lists(m.store.clean);
    table::lemma_under_prefix(m.store.clean, Seq::empty(), model::SWEEP as nat);
    assert forall|k: int| 0 <= k < clean.len() implies (#[trigger] clean[k]).len() == 12 by {
        assert(m.store.clean.contains_key(clean[k]));
        assert(m.store.records.contains_key(clean[k]));
        state::lemma_key_len(m.store.records[clean[k]].id());
    }
    state::law_keys_are_exact(id, id);
    let gone = clean.take(b as int);
    if gone.contains(key) {
        let i = choose|i: int| 0 <= i < gone.len() && gone[i] == key;
        assert(clean[i] == key);
        lemma_below_is_exact(clean, m.clean_floor(retain_blocks), i);
        assert(m.store.clean.contains_key(clean[i]));
    }
    if m.clean_keys().len() < 10_000 && m.occurrence(id)->0.clean_inclusion() {
        assert(m.store.records.contains_key(key));
        assert(m.store.clean.contains_key(key));
        assert(bytes::starts_with(key, Seq::empty())) by {
            assert(key.take(0) =~= Seq::empty());
        }
        let i = choose|i: int| 0 <= i < clean.len() && clean[i] == key;
        lemma_below_is_exact(clean, m.clean_floor(retain_blocks), i);
        if i < b {
            assert(gone[i] == key);
        }
    }
}

/// A target occurrence that no record waits for outlives retention if it lies no more than
/// `retain_blocks` target blocks behind the target cursor, and goes if it lies further behind, unless
/// the sweep is full before it.
pub proof fn law_unmatched_occurrences_go_by_their_age_in_target_blocks(m: EvidenceModel, retain_blocks: u64, key: Seq<u8>)
    requires
        m.consistent(),
        m.store.unmatched.contains_key(key),
    ensures
        m.retire(retain_blocks) is Ok,
        ({
            let after = m.settle(m.retire(retain_blocks)->Ok_0);
            let height = m.store.unmatched[key].location.block.height;
            &&& height + retain_blocks >= m.progress.target.height ==> after.store.unmatched.contains_key(key)
            &&& m.unmatched_keys().len() < 10_000 && height + retain_blocks < m.progress.target.height
                ==> !after.store.unmatched.contains_key(key)
            &&& after.store.unmatched.contains_key(key) ==> after.store.unmatched[key] == m.store.unmatched[key]
        }),
{
    lemma_pruned(m, retain_blocks);
    let id = model::location(m.store.unmatched[key]);
    let place = id.key_bytes();
    let places = m.unmatched_keys();
    let a = m.retired_unmatched(retain_blocks);
    table::lemma_finite_lists(m.store.unmatched_by_height);
    table::lemma_under_prefix(m.store.unmatched_by_height, Seq::empty(), model::SWEEP as nat);
    assert forall|k: int| 0 <= k < places.len() implies (#[trigger] places[k]).len() == 12 by {
        assert(m.store.unmatched_by_height.contains_key(places[k]));
        state::lemma_key_len(model::location(m.store.unmatched[m.store.unmatched_by_height[places[k]]]));
    }
    state::law_keys_are_exact(id, id);
    let gone = places.take(a as int);
    if gone.contains(place) {
        let i = choose|i: int| 0 <= i < gone.len() && gone[i] == place;
        assert(places[i] == place);
        lemma_below_is_exact(places, m.unmatched_floor(retain_blocks), i);
    }
    if places.len() < 10_000 {
        assert(m.store.unmatched_by_height.contains_key(place));
        assert(bytes::starts_with(place, Seq::empty())) by {
            assert(place.take(0) =~= Seq::empty());
        }
        let i = choose|i: int| 0 <= i < places.len() && places[i] == place;
        lemma_below_is_exact(places, m.unmatched_floor(retain_blocks), i);
        if i < a {
            assert(gone[i] == place);
        }
    }
}

/// What goes is counted: the archived inclusions grow by as many as there are records less, the
/// archived unmatched occurrences by as many as there are of these less, and nothing else of the
/// progress changes.
pub proof fn law_what_is_pruned_is_counted(m: EvidenceModel, retain_blocks: u64)
    requires
        m.consistent(),
        m.progress.archived_included + m.retired_clean(retain_blocks) <= u64::MAX,
        m.progress.archived_unmatched + m.retired_unmatched(retain_blocks) <= u64::MAX,
    ensures
        ({
            let after = m.settle(m.retire(retain_blocks)->Ok_0);
            &&& after.progress.archived_included - m.progress.archived_included == m.store.records.dom().len()
                - after.store.records.dom().len()
            &&& after.progress.archived_unmatched - m.progress.archived_unmatched == m.store.unmatched.dom().len()
                - after.store.unmatched.dom().len()
            &&& after.progress == (Progress {
                archived_included: after.progress.archived_included,
                archived_unmatched: after.progress.archived_unmatched,
                ..m.progress
            })
        }),
{
    lemma_pruned(m, retain_blocks);
}

} // verus!
