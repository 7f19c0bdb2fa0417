//! What every operation keeps true of the columns.

use crate::evidence::model;
use crate::evidence::model::EvidenceModel;
use crate::evidence::{Progress, SourceBlockModel};
use crate::fold;
use crate::state;
use crate::state::{OccurrenceModel, TargetObservation};
use crate::store;
use crate::store::{StoreModel, WriteModel};
use vstd::prelude::*;

verus! {

/// Every record stands under the key of its occurrence.
pub open spec fn records_filed(records: Map<Seq<u8>, OccurrenceModel>) -> bool {
    forall|key: Seq<u8>| #[trigger] records.contains_key(key) ==> records[key].id().key_bytes() == key
}

/// The indexes over the records say what the records say. The recovery index may lag behind, but
/// names only records that are not on the target or whose submission is open, and all of the latter.
pub open spec fn marks_right(store: StoreModel) -> bool {
    &&& forall|key: Seq<u8>| #[trigger] store.pending.contains_key(key) <==> store.records.contains_key(key)
        && store.records[key].target is None
    &&& forall|key: Seq<u8>| #[trigger] store.clean.contains_key(key) <==> store.records.contains_key(key)
        && store.records[key].clean_inclusion()
    &&& forall|key: Seq<u8>| #[trigger] store.recovery.contains_key(key) ==> store.records.contains_key(key)
        && (store.records[key].target is None || store.records[key].in_flight)
    &&& forall|key: Seq<u8>| #[trigger] store.records.contains_key(key) && store.records[key].in_flight
        ==> store.recovery.contains_key(key)
}

/// A key of the hash index names this record, under its hash.
pub open spec fn hash_key_right(records: Map<Seq<u8>, OccurrenceModel>, key: Seq<u8>) -> bool {
    &&& key.len() == 44
    &&& records.contains_key(key.skip(32))
    &&& key == state::index_key(records[key.skip(32)].transaction.hash, records[key.skip(32)].id())
}

/// The hash index names every record under its hash, and nothing else.
pub open spec fn hashes_right(records: Map<Seq<u8>, OccurrenceModel>, hashes: Map<Seq<u8>, ()>) -> bool {
    &&& forall|key: Seq<u8>| #[trigger] records.contains_key(key) ==> hashes.contains_key(
        state::index_key(records[key].transaction.hash, records[key].id()),
    )
    &&& forall|key: Seq<u8>| #[trigger] hashes.contains_key(key) ==> hash_key_right(records, key)
}

/// Each target occurrence is at one place: unmatched, or with the one record of its hash that
/// consumed it.
pub open spec fn targets_single(
    records: Map<Seq<u8>, OccurrenceModel>,
    unmatched: Map<Seq<u8>, TargetObservation>,
) -> bool {
    &&& forall|key: Seq<u8>| #[trigger] unmatched.contains_key(key) ==> model::target_key(unmatched[key]) == key
    &&& forall|key: Seq<u8>| #[trigger] records.contains_key(key) ==> (records[key].target matches Some(target)
        ==> target.transaction_hash == records[key].transaction.hash && !unmatched.contains_key(
        model::target_key(target),
    ))
    &&& forall|a: Seq<u8>, b: Seq<u8>| #[trigger] records.contains_key(a) && #[trigger] records.contains_key(b)
        && a != b ==> (records[a].target matches Some(x) ==> (records[b].target matches Some(y)
        ==> model::target_key(x) != model::target_key(y)))
}

/// The unmatched target occurrences and the index of their places say the same.
pub open spec fn targets_placed(
    unmatched: Map<Seq<u8>, TargetObservation>,
    places: Map<Seq<u8>, Seq<u8>>,
) -> bool {
    &&& forall|key: Seq<u8>| #[trigger] unmatched.contains_key(key) ==> places.contains_key(
        model::location(unmatched[key]).key_bytes(),
    ) && places[model::location(unmatched[key]).key_bytes()] == key
    &&& forall|place: Seq<u8>| #[trigger] places.contains_key(place) ==> unmatched.contains_key(places[place])
        && model::location(unmatched[places[place]]).key_bytes() == place
}

/// What was observed of the target lies at or below its cursor.
pub open spec fn targets_seen(store: StoreModel, height: u64) -> bool {
    &&& forall|key: Seq<u8>| #[trigger] store.unmatched.contains_key(key) ==> store.unmatched[key].location.block.height <= height
    &&& forall|key: Seq<u8>| #[trigger] store.records.contains_key(key) ==> (store.records[key].target matches Some(target)
        ==> target.location.block.height <= height)
}

/// Source receipts are known only up to their cursor.
pub open spec fn receipts_seen(records: Map<Seq<u8>, OccurrenceModel>, height: u64) -> bool {
    forall|key: Seq<u8>| #[trigger] records.contains_key(key) && records[key].source_receipt is Some
        ==> records[key].source.block.height <= height
}

/// A stored source block has a record for each of its occurrences, and each position in it has a
/// hash.
pub open spec fn block_right(records: Map<Seq<u8>, OccurrenceModel>, block: SourceBlockModel) -> bool {
    forall|i: int| 0 <= i < block.occurrences.len() ==> {
        let id = #[trigger] block.occurrences[i];
        &&& id.source_height == block.cursor.height
        &&& id.source_index < block.hashes.len()
        &&& records.contains_key(id.key_bytes())
        &&& records[id.key_bytes()].source.block == block.cursor
        &&& records[id.key_bytes()].transaction.hash == block.hashes[id.source_index as int]
    }
}

/// Source blocks are stored until both their submissions and their receipts are committed.
pub open spec fn blocks_right(store: StoreModel, progress: Progress) -> bool {
    forall|key: Seq<u8>| #[trigger] store.blocks.contains_key(key) ==> {
        let block = store.blocks[key];
        &&& key == model::height_key(block.cursor.height)
        &&& block.cursor.height > progress.source.height || block.cursor.height > progress.source_receipts.height
        &&& block_right(store.records, block)
    }
}

/// A record above the source cursor belongs to a source block that is stored.
pub open spec fn blocks_kept(store: StoreModel, progress: Progress) -> bool {
    forall|key: Seq<u8>| #[trigger] store.records.contains_key(key) && store.records[key].source.block.height
        > progress.source.height ==> {
        let height = model::height_key(store.records[key].source.block.height);
        &&& store.blocks.contains_key(height)
        &&& store.blocks[height].occurrences.contains(store.records[key].id())
    }
}

impl EvidenceModel {
    /// Every index says what the records say, and every target occurrence is at one place.
    pub open spec fn consistent(self) -> bool {
        &&& self.store.finite()
        &&& self.store.progress == Some(self.progress)
        &&& records_filed(self.store.records)
        &&& marks_right(self.store)
        &&& hashes_right(self.store.records, self.store.hashes)
        &&& targets_single(self.store.records, self.store.unmatched)
        &&& targets_placed(self.store.unmatched, self.store.unmatched_by_height)
        &&& targets_seen(self.store, self.progress.target.height)
        &&& receipts_seen(self.store.records, self.progress.source_receipts.height)
        &&& blocks_right(self.store, self.progress)
        &&& blocks_kept(self.store, self.progress)
    }
}

impl EvidenceModel {
    /// The store is consistent and the counters of every record fit together.
    pub open spec fn healthy(self) -> bool {
        self.consistent() && self.sound()
    }
}

// What batches do.

/// What holds of the columns and survives each part of a batch survives the batch.
pub proof fn lemma_kept(
    start: StoreModel,
    n: nat,
    part: spec_fn(int) -> Seq<WriteModel>,
    holds: spec_fn(StoreModel) -> bool,
)
    requires
        holds(start),
        forall|i: int, store: StoreModel|
            0 <= i < n && #[trigger] holds(store) ==> holds(#[trigger] store.write_all(part(i))),
    ensures
        holds(start.write_all(fold::gathered(n, part))),
    decreases n,
{
    if n > 0 {
        let before = (n - 1) as nat;
        lemma_kept(start, before, part, holds);
        store::lemma_write_all_concat(start, fold::gathered(before, part), part(n - 1));
        let reached = start.write_all(fold::gathered(before, part));
        assert(holds(reached.write_all(part(n - 1))));
    }
}

/// What filing a record does to the columns.
pub proof fn lemma_record_written(at: StoreModel, m: EvidenceModel, record: OccurrenceModel)
    ensures
        ({
            let key = record.id().key_bytes();
            at.write_all(m.record_writes(record)) == (StoreModel {
                records: at.records.insert(key, record),
                clean: store::marked(at.clean, key, record.clean_inclusion()),
                pending: store::marked(at.pending, key, record.target is None),
                recovery: store::marked(at.recovery, key, m.recoverable(record)),
                ..at
            })
        }),
{
    let writes = m.record_writes(record);
    let w3 = writes.drop_last();
    let w2 = w3.drop_last();
    let w1 = w2.drop_last();
    assert(w1.drop_last() =~= Seq::empty());
    assert(at.write_all(w1.drop_last()) == at);
    assert(at.write_all(w1) == at.write(writes[0]));
    assert(at.write_all(w2) == at.write(writes[0]).write(writes[1]));
    assert(at.write_all(w3) == at.write(writes[0]).write(writes[1]).write(writes[2]));
}

/// Filing a record keeps records and their indexes in line.
pub proof fn lemma_record_marks(at: StoreModel, m: EvidenceModel, record: OccurrenceModel)
    requires
        records_filed(at.records),
        marks_right(at),
    ensures
        records_filed(at.write_all(m.record_writes(record)).records),
        marks_right(at.write_all(m.record_writes(record))),
{
    lemma_record_written(at, m, record);
    let after = at.write_all(m.record_writes(record));
    let key = record.id().key_bytes();
    assert forall|k: Seq<u8>| #[trigger] after.pending.contains_key(k) <==> after.records.contains_key(k)
        && after.records[k].target is None by {
        assert(k != key ==> (after.pending.contains_key(k) <==> at.pending.contains_key(k)));
    }
    assert forall|k: Seq<u8>| #[trigger] after.clean.contains_key(k) <==> after.records.contains_key(k)
        && after.records[k].clean_inclusion() by {
        assert(k != key ==> (after.clean.contains_key(k) <==> at.clean.contains_key(k)));
    }
    assert forall|k: Seq<u8>| #[trigger] after.recovery.contains_key(k) implies after.records.contains_key(k)
        && (after.records[k].target is None || after.records[k].in_flight) by {
        assert(k != key ==> (after.recovery.contains_key(k) <==> at.recovery.contains_key(k)));
    }
    assert forall|k: Seq<u8>| #[trigger] after.records.contains_key(k) && after.records[k].in_flight implies
        after.recovery.contains_key(k) by {
        assert(k != key ==> (after.recovery.contains_key(k) <==> at.recovery.contains_key(k)));
    }
}

} // verus!
