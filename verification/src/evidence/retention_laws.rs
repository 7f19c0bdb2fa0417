//! What retention keeps, and why a consistent store has no index errors.

use crate::evidence::consistency;
use crate::evidence::model;
use crate::evidence::model::EvidenceModel;
use crate::evidence::retention;
use crate::evidence::EvidenceError;
use crate::fold;
use crate::state;
use crate::state::OccurrenceId;
use crate::store;
use crate::store::StoreModel;
use crate::table;
use crate::words::B256;
use vstd::prelude::*;

verus! {

/// The columns after something was removed: what is left is as it was, what is gone was a clean
/// inclusion or an unmatched target occurrence below its floor.
pub open spec fn retired_from(m: EvidenceModel, retain_blocks: u64, after: StoreModel) -> bool {
    &&& forall|key: Seq<u8>| #[trigger] after.records.contains_key(key) ==> m.store.records.contains_key(key)
        && after.records[key] == m.store.records[key]
    &&& forall|key: Seq<u8>| #[trigger] m.store.records.contains_key(key) && !after.records.contains_key(key) ==> {
        &&& m.store.records[key].clean_inclusion()
        &&& m.store.records[key].source.block.height < m.clean_floor(retain_blocks)
    }
    &&& forall|key: Seq<u8>| #[trigger] after.unmatched.contains_key(key) ==> m.store.unmatched.contains_key(key)
        && after.unmatched[key] == m.store.unmatched[key]
    &&& forall|key: Seq<u8>| #[trigger] m.store.unmatched.contains_key(key) && !after.unmatched.contains_key(key)
        ==> m.store.unmatched[key].location.block.height < m.unmatched_floor(retain_blocks)
}

/// What a retention batch keeps at each step.
spec fn retiring(m: EvidenceModel, retain_blocks: u64, at: StoreModel) -> bool {
    &&& at == StoreModel {
        records: at.records,
        hashes: at.hashes,
        clean: at.clean,
        unmatched: at.unmatched,
        unmatched_by_height: at.unmatched_by_height,
        ..m.store
    }
    &&& retired_from(m, retain_blocks, at)
    &&& consistency::marks_right(at)
    &&& consistency::hashes_right(at.records, at.hashes)
    &&& consistency::targets_placed(at.unmatched, at.unmatched_by_height)
    &&& forall|place: Seq<u8>| #[trigger] at.unmatched_by_height.contains_key(place) ==> m.store.unmatched_by_height.contains_key(place)
        && at.unmatched_by_height[place] == m.store.unmatched_by_height[place]
}

/// Removing an unmatched target occurrence below the floor.
proof fn lemma_forget_unmatched(m: EvidenceModel, retain_blocks: u64, at: StoreModel, place: Seq<u8>)
    requires
        m.consistent(),
        retiring(m, retain_blocks, at),
        m.store.unmatched_by_height.contains_key(place),
        EvidenceModel::old_enough(place, m.unmatched_floor(retain_blocks)),
    ensures
        retiring(m, retain_blocks, at.write_all(m.forget_unmatched(place))),
{
    let key = m.store.unmatched_by_height[place];
    let writes = m.forget_unmatched(place);
    assert(writes.drop_last().drop_last() =~= Seq::empty());
    assert(at.write_all(writes.drop_last().drop_last()) == at);
    assert(at.write_all(writes.drop_last()) == at.write(writes[0]));
    let after = at.write_all(writes);
    assert(after.unmatched == at.unmatched.remove(key));
    assert(after.unmatched_by_height == at.unmatched_by_height.remove(place));
    assert(m.store.unmatched.contains_key(key));
    assert(model::location(m.store.unmatched[key]).key_bytes() == place);
    state::law_keys_are_exact(model::location(m.store.unmatched[key]), model::location(m.store.unmatched[key]));
    assert forall|k: Seq<u8>| #[trigger] after.unmatched.contains_key(k) implies
        after.unmatched_by_height.contains_key(model::location(after.unmatched[k]).key_bytes())
        && after.unmatched_by_height[model::location(after.unmatched[k]).key_bytes()] == k by {
        assert(at.unmatched.contains_key(k));
    }
    assert forall|p: Seq<u8>| #[trigger] after.unmatched_by_height.contains_key(p) implies
        after.unmatched.contains_key(after.unmatched_by_height[p])
        && model::location(after.unmatched[after.unmatched_by_height[p]]).key_bytes() == p by {
        assert(at.unmatched_by_height.contains_key(p));
    }
    assert(after.pending == at.pending && after.clean == at.clean && after.recovery == at.recovery
        && after.records == at.records);
    assert(consistency::marks_right(after));
}

/// Removing a clean inclusion below the floor.
proof fn lemma_forget_clean(m: EvidenceModel, retain_blocks: u64, at: StoreModel, key: Seq<u8>)
    requires
        m.consistent(),
        retiring(m, retain_blocks, at),
        m.store.clean.contains_key(key),
        EvidenceModel::old_enough(key, m.clean_floor(retain_blocks)),
    ensures
        retiring(m, retain_blocks, at.write_all(m.forget_clean(key))),
{
    let id = state::decoded(key).unwrap();
    state::law_decoding_keeps_the_key(key);
    let record = m.store.records[key];
    assert(m.store.records.contains_key(key));
    state::law_keys_are_exact(id, record.id());
    let hashed = state::index_key(record.transaction.hash, id);
    let writes = m.forget_clean(key);
    let w2 = writes.drop_last();
    let w1 = w2.drop_last();
    assert(w1.drop_last() =~= Seq::empty());
    assert(at.write_all(w1.drop_last()) == at);
    assert(at.write_all(w1) == at.write(writes[0]));
    assert(at.write_all(w2) == at.write(writes[0]).write(writes[1]));
    let after = at.write_all(writes);
    assert(after.records == at.records.remove(key));
    assert(after.hashes == at.hashes.remove(hashed));
    assert(after.clean == at.clean.remove(key));
    assert(after.pending == at.pending && after.recovery == at.recovery);
    assert forall|k: Seq<u8>| #[trigger] after.pending.contains_key(k) <==> after.records.contains_key(k)
        && after.records[k].target is None by {
        assert(at.pending.contains_key(k) <==> at.records.contains_key(k) && at.records[k].target is None);
    }
    assert forall|k: Seq<u8>| #[trigger] after.clean.contains_key(k) <==> after.records.contains_key(k)
        && after.records[k].clean_inclusion() by {
        assert(k != key ==> (after.clean.contains_key(k) <==> at.clean.contains_key(k)));
    }
    assert forall|k: Seq<u8>| #[trigger] after.recovery.contains_key(k) implies after.records.contains_key(k)
        && (after.records[k].target is None || after.records[k].in_flight) by {
        assert(at.recovery.contains_key(k));
    }
    assert forall|k: Seq<u8>| #[trigger] after.records.contains_key(k) implies after.hashes.contains_key(
        state::index_key(after.records[k].transaction.hash, after.records[k].id()),
    ) by {
        assert(at.records.contains_key(k));
        state::law_index_keys_are_exact(
            after.records[k].transaction.hash,
            record.transaction.hash,
            after.records[k].id(),
            id,
        );
        assert(m.store.records.contains_key(k));
    }
    assert forall|h: Seq<u8>| #[trigger] after.hashes.contains_key(h) implies consistency::hash_key_right(after.records, h) by {
        assert(at.hashes.contains_key(h));
        assert(at.records.contains_key(h.skip(32)));
        if h.skip(32) == key {
            assert(h == hashed);
        }
    }
}

/// Retention keeps the store consistent. It removes nothing but clean inclusions more than
/// `retain_blocks` below the source cursor and target occurrences that stayed unmatched for more
/// than `retain_blocks` target blocks: no anomaly is ever pruned, and what stays is as it was.
pub proof fn law_anomalies_are_never_pruned(m: EvidenceModel, retain_blocks: u64)
    requires
        m.consistent(),
        m.retire(retain_blocks) is Ok,
    ensures
        ({
            let after = m.settle(m.retire(retain_blocks)->Ok_0);
            &&& after.consistent()
            &&& m.sound() ==> after.sound()
            &&& retired_from(m, retain_blocks, after.store)
            &&& after.store.blocks == m.store.blocks
            &&& after.progress.source == m.progress.source
            &&& forall|key: Seq<u8>| #[trigger] m.store.records.contains_key(key) && !m.store.records[key].clean_inclusion()
                ==> after.store.records.contains_key(key) && after.store.records[key] == m.store.records[key]
        }),
{
    let commit = m.retire(retain_blocks)->Ok_0;
    let after = m.settle(commit);
    if commit is Some {
        let places = m.unmatched_keys();
        let clean = m.clean_keys();
        let a_count = m.retired_unmatched(retain_blocks);
        let b_count = m.retired_clean(retain_blocks);
        let part_a = |i: int| m.forget_unmatched(places[i]);
        let part_b = |i: int| m.forget_clean(clean[i]);
        let a = fold::gathered(a_count, part_a);
        let b = fold::gathered(b_count, part_b);
        assert(commit.unwrap().writes == a + b);
        table::lemma_finite_lists(m.store.unmatched_by_height);
        table::lemma_finite_lists(m.store.clean);
        table::lemma_under_prefix(m.store.unmatched_by_height, Seq::empty(), model::SWEEP as nat);
        table::lemma_under_prefix(m.store.clean, Seq::empty(), model::SWEEP as nat);
        let holds = |at: StoreModel| retiring(m, retain_blocks, at);
        assert forall|i: int, at: StoreModel|
            0 <= i < a_count && #[trigger] holds(at) implies holds(#[trigger] at.write_all(part_a(i))) by {
            retention::lemma_below_all(places, m.unmatched_floor(retain_blocks), i);
            lemma_forget_unmatched(m, retain_blocks, at, places[i]);
        }
        assert forall|i: int, at: StoreModel|
            0 <= i < b_count && #[trigger] holds(at) implies holds(#[trigger] at.write_all(part_b(i))) by {
            retention::lemma_below_all(clean, m.clean_floor(retain_blocks), i);
            lemma_forget_clean(m, retain_blocks, at, clean[i]);
        }
        assert(holds(m.store));
        consistency::lemma_kept(m.store, a_count, part_a, holds);
        let mid = m.store.write_all(a);
        consistency::lemma_kept(mid, b_count, part_b, holds);
        store::lemma_write_all_concat(m.store, a, b);
        let end = mid.write_all(b);
        assert(holds(end));
        store::lemma_write_all_finite(m.store, a + b);
        assert(after.store == StoreModel { progress: Some(after.progress), ..end });
        assert(consistency::marks_right(after.store)) by {
            assert(end.pending == after.store.pending && end.clean == after.store.clean && end.recovery
                == after.store.recovery && end.records == after.store.records);
        }
        let records = after.store.records;
        assert forall|key: Seq<u8>| #[trigger] after.store.blocks.contains_key(key) implies consistency::block_right(records, after.store.blocks[key]) by {
            let block = after.store.blocks[key];
            assert(m.store.blocks.contains_key(key));
            assert forall|i: int| 0 <= i < block.occurrences.len() implies {
                let id = #[trigger] block.occurrences[i];
                &&& id.source_height == block.cursor.height
                &&& id.source_index < block.hashes.len()
                &&& records.contains_key(id.key_bytes())
                &&& records[id.key_bytes()].source.block == block.cursor
                &&& records[id.key_bytes()].transaction.hash == block.hashes[id.source_index as int]
            } by {
                let k = block.occurrences[i].key_bytes();
                assert(m.store.records.contains_key(k));
                if !records.contains_key(k) {
                    assert(m.store.records[k].source_receipt is Some);
                }
            }
        }
        assert forall|key: Seq<u8>| #[trigger] records.contains_key(key) && records[key].source.block.height
            > after.progress.source.height implies {
            let place = model::height_key(records[key].source.block.height);
            &&& after.store.blocks.contains_key(place)
            &&& after.store.blocks[place].occurrences.contains(records[key].id())
        } by {
            assert(m.store.records.contains_key(key));
        }
    }
}

/// A consistent store has no index errors: looking up a hash fails only for too many occurrences,
/// and recovery and retention never fail.
pub proof fn law_a_consistent_store_has_no_index_errors(m: EvidenceModel, hash: B256, retain_blocks: u64)
    requires
        m.consistent(),
    ensures
        m.by_hash_error(hash) is None || m.by_hash_error(hash) == Some(EvidenceError::TooManyOccurrences),
        m.recover() is Ok,
        m.retire(retain_blocks) is Ok,
{
    // Lookup by hash.
    let keys = m.hash_keys(hash);
    table::lemma_finite_lists(m.store.hashes);
    table::lemma_under_prefix(m.store.hashes, hash.bytes(), (model::MAX_REPEATS + 1) as nat);
    assert forall|i: int| 0 <= i < keys.len() implies (#[trigger] m.hash_key_error(keys)(i)) is None by {
        assert(m.store.hashes.contains_key(keys[i]));
        let tail = keys[i].skip(32);
        state::law_decoding_keeps_the_key(tail);
    }
    fold::lemma_no_error(keys.len(), m.hash_key_error(keys));
    // Recovery.
    let due = m.recovery_keys();
    let end = OccurrenceId { source_height: m.progress.source.height, source_index: u32::MAX };
    table::lemma_finite_lists(m.store.recovery);
    table::lemma_in_range(m.store.recovery, Seq::empty(), end.key_bytes(), model::SWEEP as nat);
    assert forall|i: int| 0 <= i < due.len() implies (#[trigger] m.recovery_error(due)(i)) is None by {
        assert(m.store.recovery.contains_key(due[i]));
        assert(m.store.records.contains_key(due[i]));
        state::lemma_key_len(m.store.records[due[i]].id());
        state::law_decoding_keeps_the_key(due[i]);
    }
    fold::lemma_no_error(due.len(), m.recovery_error(due));
    // Retention.
    let places = m.unmatched_keys();
    let clean = m.clean_keys();
    table::lemma_finite_lists(m.store.unmatched_by_height);
    table::lemma_finite_lists(m.store.clean);
    table::lemma_under_prefix(m.store.unmatched_by_height, Seq::empty(), model::SWEEP as nat);
    table::lemma_under_prefix(m.store.clean, Seq::empty(), model::SWEEP as nat);
    assert forall|i: int| 0 <= i < places.len() implies state::decoded(#[trigger] places[i]) is Some by {
        let key = m.store.unmatched_by_height[places[i]];
        assert(m.store.unmatched_by_height.contains_key(places[i]));
        state::lemma_key_len(model::location(m.store.unmatched[key]));
    }
    assert forall|i: int| 0 <= i < clean.len() implies state::decoded(#[trigger] clean[i]) is Some
        && m.store.records.contains_key(clean[i]) && m.store.records[clean[i]].clean_inclusion() by {
        assert(m.store.clean.contains_key(clean[i]));
        state::lemma_key_len(m.store.records[clean[i]].id());
    }
    let n = m.retired_clean(retain_blocks);
    assert forall|i: int| 0 <= i < n implies (#[trigger] m.clean_error(clean)(i)) is None by {
        retention::lemma_below_all(clean, m.clean_floor(retain_blocks), i);
        assert(state::decoded(clean[i]) is Some);
        state::law_decoding_keeps_the_key(clean[i]);
    }
    fold::lemma_no_error(n, m.clean_error(clean));
}

} // verus!
