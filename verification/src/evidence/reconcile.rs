//! Matching of target occurrences with source occurrences of the same signed hash.

use crate::evidence::model;
use crate::evidence::model::EvidenceModel;
use crate::evidence::{EvidenceError, EvidenceStore};
use crate::fold;
use crate::state;
use crate::state::{Occurrence, OccurrenceId, OccurrenceModel, TargetObservation};
use crate::store;
use crate::store::Write;
use crate::table;
use crate::table::Table;
use crate::words;
use crate::words::B256;
use vstd::prelude::*;

verus! {

/// What a list of found occurrences says.
pub open spec fn found_view(found: Seq<(OccurrenceId, Occurrence)>) -> Seq<(OccurrenceId, OccurrenceModel)> {
    found.map_values(|entry: (OccurrenceId, Occurrence)| (entry.0, entry.1@))
}

/// Where a target occurrence stands.
fn target_location(target: &TargetObservation) -> (r: OccurrenceId)
    ensures
        r == model::location(*target),
{
    OccurrenceId {
        source_height: target.location.block.height,
        source_index: target.location.index,
    }
}

fn target_key(target: &TargetObservation) -> (r: Vec<u8>)
    ensures
        r@ == model::target_key(*target),
{
    state::index_key_vec(target.transaction_hash, target_location(target))
}

impl EvidenceStore {
    /// The occurrences of a signed hash in source order, with their records.
    pub fn by_hash(&self, hash: B256) -> (r: Result<Vec<(OccurrenceId, Occurrence)>, EvidenceError>)
        requires
            self.wf(),
        ensures
            match self@.by_hash_error(hash) {
                Some(error) => r == Err::<Vec<(OccurrenceId, Occurrence)>, EvidenceError>(error),
                None => r matches Ok(found) && found_view(found@) == self@.by_hash(hash),
            },
    {
        let keys = self.store.hash_keys(hash.to_vec().as_slice(), model::MAX_REPEATS + 1);
        let ghost filed = self@.hash_keys(hash);
        let ghost check = self@.hash_key_error(filed);
        assert(table::key_views(keys@) == filed);
        if keys.len() > model::MAX_REPEATS {
            assert(filed.len() == keys@.len());
            return Err(EvidenceError::TooManyOccurrences);
        }
        proof {
            self.store.lemma_listings();
            table::lemma_under_prefix(self@.store.hashes, hash.bytes(), (model::MAX_REPEATS + 1) as nat);
            words::lemma_hash_len(hash);
        }
        let mut found: Vec<(OccurrenceId, Occurrence)> = Vec::new();
        let mut i: usize = 0;
        while i < keys.len()
            invariant
                i <= keys@.len() <= model::MAX_REPEATS,
                table::key_views(keys@) == filed,
                filed == self@.hash_keys(hash),
                self.wf(),
                check == self@.hash_key_error(filed),
                forall|j: int| 0 <= j < filed.len() ==> (#[trigger] filed[j]).len() >= 32,
                forall|j: int| 0 <= j < i ==> (#[trigger] check(j)) is None,
                found_view(found@) == self@.by_hash(hash).take(i as int),
            decreases keys@.len() - i,
        {
            let key = &keys[i];
            assert(key@ == filed[i as int]);
            let ghost checked = check(i as int);
            proof {
                if check(i as int) is Some {
                    fold::lemma_error_at(filed.len(), check, i as int);
                }
            }
            let tail = vstd::slice::slice_subrange(key.as_slice(), 32, key.len());
            assert(tail@ =~= key@.skip(32));
            let id = match OccurrenceId::decode(tail) {
                Some(id) => id,
                None => {
                    return Err(EvidenceError::InvalidHashIndex);
                },
            };
            let record = match self.occurrence(id) {
                Some(record) => record,
                None => {
                    return Err(EvidenceError::MissingIndexedOccurrence);
                },
            };
            let ghost before = found_view(found@);
            let ghost entry = (id, record@);
            found.push((id, record));
            assert(found_view(found@) =~= before.push(entry));
            assert(self@.by_hash(hash)[i as int] == entry);
            i += 1;
            assert(found_view(found@) =~= self@.by_hash(hash).take(i as int));
        }
        proof {
            fold::lemma_no_error(filed.len(), check);
            assert(self@.by_hash(hash).take(i as int) =~= self@.by_hash(hash));
        }
        Ok(found)
    }

    /// Adds the stored records of a hash to those at hand. One that is at hand stays as it is.
    fn pull(&self, records: &mut Table<Occurrence>, hash: B256) -> (r: Result<(), EvidenceError>)
        requires
            self.wf(),
            old(records).wf(),
        ensures
            final(records).wf(),
            match self@.by_hash_error(hash) {
                Some(error) => r == Err::<(), EvidenceError>(error),
                None => r is Ok && final(records)@ == self@.with_stored(old(records)@, hash),
            },
    {
        let found = match self.by_hash(hash) {
            Ok(found) => found,
            Err(error) => {
                return Err(error);
            },
        };
        let ghost before = records@;
        let mut i: usize = 0;
        while i < found.len()
            invariant
                i <= found@.len(),
                records.wf(),
                found_view(found@) == self@.by_hash(hash),
                records@ == self@.with_stored_first(before, hash, i as nat),
            decreases found@.len() - i,
        {
            let id = found[i].0;
            let key = id.key_vec();
            assert(found_view(found@)[i as int] == (id, found@[i as int].1@));
            assert(self@.hash_keys(hash).len() == found@.len()) by {
                assert(found_view(found@).len() == self@.by_hash(hash).len());
            }
            assert(self@.indexed(self@.hash_keys(hash)[i as int]) == (id, found@[i as int].1@));
            if records.get(key.as_slice()).is_none() {
                records.put(key, found[i].1.clone());
            }
            i += 1;
        }
        assert(found_view(found@).len() == self@.hash_keys(hash).len());
        Ok(())
    }

    /// The target occurrences of a hash that can be matched.
    fn candidates(&self, fresh: &Table<TargetObservation>, hash: B256) -> (r: Table<TargetObservation>)
        requires
            self.wf(),
            fresh.wf(),
        ensures
            r.wf(),
            r@ == self@.candidates(fresh@, hash),
    {
        let keys = self.store.unmatched_keys(hash.to_vec().as_slice(), model::MAX_REPEATS);
        let ghost stored = table::under_prefix(self@.store.unmatched, hash.bytes(), model::MAX_REPEATS as nat);
        proof {
            self.store.lemma_listings();
            table::lemma_under_prefix(self@.store.unmatched, hash.bytes(), model::MAX_REPEATS as nat);
        }
        let mut targets: Table<TargetObservation> = Table::new();
        let mut i: usize = 0;
        while i < keys.len()
            invariant
                i <= keys@.len(),
                table::key_views(keys@) == stored,
                forall|j: int| 0 <= j < stored.len() ==> self@.store.unmatched.contains_key(#[trigger] stored[j]),
                self.wf(),
                targets.wf(),
                forall|key: Seq<u8>| #[trigger] targets@.contains_key(key) <==> stored.take(i as int).contains(key),
                forall|key: Seq<u8>| #[trigger] targets@.contains_key(key) ==> targets@[key] == self@.store.unmatched[key],
            decreases keys@.len() - i,
        {
            assert(keys@[i as int]@ == stored[i as int]);
            assert(stored.take(i + 1) =~= stored.take(i as int).push(stored[i as int]));
            let ghost before = targets@;
            if let Some(target) = self.store.unmatched(keys[i].as_slice()) {
                let key = keys[i].clone();
                assert(key@ == stored[i as int]);
                targets.put(key, *target);
            }
            proof {
                assert forall|key: Seq<u8>| #[trigger] targets@.contains_key(key) <==> stored.take(i + 1).contains(key) by {
                    lemma_push_contains(stored.take(i as int), stored[i as int], key);
                    assert(before.contains_key(key) <==> stored.take(i as int).contains(key));
                }
            }
            i += 1;
        }
        assert(stored.take(i as int) =~= stored);
        let fresh_keys = fresh.all_keys();
        let ghost listed = table::listed(fresh@);
        proof {
            fresh.lemma_lists();
        }
        let mut k: usize = 0;
        while k < fresh_keys.len()
            invariant
                k <= fresh_keys@.len(),
                table::key_views(fresh_keys@) == listed,
                table::lists(listed, fresh@),
                fresh.wf(),
                targets.wf(),
                forall|key: Seq<u8>| #[trigger] targets@.contains_key(key) <==> stored.contains(key) || (
                    listed.take(k as int).contains(key) && fresh@[key].transaction_hash == hash),
                forall|key: Seq<u8>| #[trigger] targets@.contains_key(key) ==> targets@[key] == (
                    if listed.take(k as int).contains(key) && fresh@[key].transaction_hash == hash {
                        fresh@[key]
                    } else {
                        self@.store.unmatched[key]
                    }),
            decreases fresh_keys@.len() - k,
        {
            assert(fresh_keys@[k as int]@ == listed[k as int]);
            assert(listed.contains(listed[k as int]));
            assert(listed.take(k + 1) =~= listed.take(k as int).push(listed[k as int]));
            let ghost before = targets@;
            if let Some(target) = fresh.get(fresh_keys[k].as_slice()) {
                if target.transaction_hash == hash {
                    let key = fresh_keys[k].clone();
                    assert(key@ == listed[k as int]);
                    targets.put(key, *target);
                }
            }
            proof {
                assert forall|key: Seq<u8>| #[trigger] targets@.contains_key(key) <==> stored.contains(key) || (
                    listed.take(k + 1).contains(key) && fresh@[key].transaction_hash == hash) by {
                    lemma_push_contains(listed.take(k as int), listed[k as int], key);
                    assert(before.contains_key(key) || !before.contains_key(key));
                }
                assert forall|key: Seq<u8>| #[trigger] targets@.contains_key(key) implies targets@[key] == (
                    if listed.take(k + 1).contains(key) && fresh@[key].transaction_hash == hash {
                        fresh@[key]
                    } else {
                        self@.store.unmatched[key]
                    }) by {
                    lemma_push_contains(listed.take(k as int), listed[k as int], key);
                    assert(before.contains_key(key) || !before.contains_key(key));
                }
            }
            k += 1;
        }
        proof {
            assert(listed.take(k as int) =~= listed);
            assert forall|key: Seq<u8>| #[trigger] targets@.contains_key(key) <==> self@.candidates(fresh@, hash).contains_key(key) by {
                assert(listed.contains(key) <==> fresh@.contains_key(key));
            }
            assert forall|key: Seq<u8>| #[trigger] targets@.contains_key(key) implies targets@[key] == self@.candidates(fresh@, hash)[key] by {
                assert(listed.contains(key) <==> fresh@.contains_key(key));
            }
            assert(targets@ =~= self@.candidates(fresh@, hash));
        }
        targets
    }
}

proof fn lemma_push_contains(list: Seq<Seq<u8>>, last: Seq<u8>, key: Seq<u8>)
    ensures
        list.push(last).contains(key) <==> list.contains(key) || key == last,
{
    if list.contains(key) {
        let i = choose|i: int| 0 <= i < list.len() && list[i] == key;
        assert(list.push(last)[i] == key);
    }
    assert(list.push(last)[list.len() as int] == last);
}

/// The records of a hash without a target occurrence, in source order.
fn open_records(records: &Table<Occurrence>, hash: B256) -> (r: Vec<Vec<u8>>)
    requires
        records.wf(),
    ensures
        table::key_views(r@) == EvidenceModel::open_records(records@, hash),
{
    let keys = records.all_keys();
    let ghost listed = table::listed(records@);
    let ghost pred = |key: Seq<u8>|
        records@[key].transaction.hash == hash && records@[key].target is None;
    let mut open: Vec<Vec<u8>> = Vec::new();
    proof {
        records.lemma_lists();
        reveal(Seq::filter);
        assert(table::key_views(open@) =~= listed.take(0).filter(pred));
    }
    let mut i: usize = 0;
    while i < keys.len()
        invariant
            i <= keys@.len(),
            records.wf(),
            table::key_views(keys@) == listed,
            table::lists(listed, records@),
            pred == (|key: Seq<u8>|
                records@[key].transaction.hash == hash && records@[key].target is None),
            table::key_views(open@) == listed.take(i as int).filter(pred),
        decreases keys@.len() - i,
    {
        assert(keys@[i as int]@ == listed[i as int]);
        assert(listed.contains(listed[i as int]));
        let ghost before = table::key_views(open@);
        proof {
            reveal(Seq::filter);
            assert(listed.take(i + 1).drop_last() =~= listed.take(i as int));
            assert(listed.take(i + 1).last() == listed[i as int]);
        }
        if let Some(record) = records.get(keys[i].as_slice()) {
            if record.transaction.hash == hash && record.target.is_none() {
                let key = keys[i].clone();
                assert(key@ == listed[i as int]);
                open.push(key);
                assert(table::key_views(open@) =~= before.push(listed[i as int]));
            }
        }
        i += 1;
    }
    assert(listed.take(i as int) =~= listed);
    open
}

/// Every target occurrence of a list stands under its key, and nothing else does.
pub proof fn lemma_by_target_key(targets: Seq<TargetObservation>, key: Seq<u8>)
    ensures
        EvidenceModel::by_target_key(targets).contains_key(key) <==> exists|i: int|
            0 <= i < targets.len() && model::target_key(#[trigger] targets[i]) == key,
    decreases targets.len(),
{
    if targets.len() > 0 {
        let rest = targets.drop_last();
        lemma_by_target_key(rest, key);
        if EvidenceModel::by_target_key(rest).contains_key(key) {
            let i = choose|i: int| 0 <= i < rest.len() && model::target_key(#[trigger] rest[i]) == key;
            assert(targets[i] == rest[i]);
        }
        if exists|i: int| 0 <= i < targets.len() && model::target_key(#[trigger] targets[i]) == key {
            let i = choose|i: int| 0 <= i < targets.len() && model::target_key(#[trigger] targets[i]) == key;
            if i < rest.len() {
                assert(rest[i] == targets[i]);
            } else {
                assert(targets[i] == targets.last());
            }
        } else {
            assert(model::target_key(targets[targets.len() - 1]) != key);
        }
    }
}

/// Files new target occurrences as unmatched, each under its own key.
fn file_incoming(writes: &mut Vec<Write>, incoming: &Vec<TargetObservation>) -> (r: Result<
    Table<TargetObservation>,
    EvidenceError,
>)
    ensures
        match fold::first_error(incoming@.len(), EvidenceModel::repeated_target(incoming@)) {
            Some(error) => r == Err::<Table<TargetObservation>, EvidenceError>(error),
            None => {
                &&& r matches Ok(fresh) && fresh.wf() && fresh@ == EvidenceModel::by_target_key(incoming@)
                &&& store::writes_view(final(writes)@) == store::writes_view(old(writes)@)
                    + fold::gathered(
                    incoming@.len(),
                    |i: int| EvidenceModel::unmatched_writes(incoming@[i]),
                )
            },
        },
{
    let ghost before = store::writes_view(writes@);
    let ghost check = EvidenceModel::repeated_target(incoming@);
    let ghost part = |i: int| EvidenceModel::unmatched_writes(incoming@[i]);
    let mut fresh: Table<TargetObservation> = Table::new();
    let mut i: usize = 0;
    assert(before + fold::gathered(0, part) =~= before);
    assert(incoming@.take(0) =~= Seq::empty());
    while i < incoming.len()
        invariant
            i <= incoming@.len(),
            fresh.wf(),
            fresh@ == EvidenceModel::by_target_key(incoming@.take(i as int)),
            check == EvidenceModel::repeated_target(incoming@),
            part == (|i: int| EvidenceModel::unmatched_writes(incoming@[i])),
            forall|j: int| 0 <= j < i ==> (#[trigger] check(j)) is None,
            store::writes_view(writes@) == before + fold::gathered(i as nat, part),
        decreases incoming@.len() - i,
    {
        let target = incoming[i];
        let key = target_key(&target);
        let ghost checked = check(i as int);
        let ghost done = incoming@.take(i as int);
        proof {
            lemma_by_target_key(done, key@);
            if fresh@.contains_key(key@) {
                let j = choose|j: int| 0 <= j < done.len() && model::target_key(#[trigger] done[j]) == key@;
                assert(incoming@[j] == done[j]);
                assert(check(i as int) is Some);
                fold::lemma_error_at(incoming@.len(), check, i as int);
            } else {
                assert forall|j: int| 0 <= j < i implies model::target_key(#[trigger] incoming@[j]) != key@ by {
                    assert(done[j] == incoming@[j]);
                }
                assert(check(i as int) is None);
            }
        }
        if fresh.get(key.as_slice()).is_some() {
            return Err(EvidenceError::DuplicateTargetLocation);
        }
        let filed = Write::Unmatched { key: key.clone(), value: Some(target) };
        let placed = Write::UnmatchedByHeight {
            key: target_location(&target).key_vec(),
            value: Some(key.clone()),
        };
        let ghost written = store::writes_view(writes@);
        proof {
            assert(seq![filed@, placed@] =~= EvidenceModel::unmatched_writes(target));
        }
        writes.push(filed);
        writes.push(placed);
        proof {
            assert(store::writes_view(writes@) =~= written + seq![filed@, placed@]);
            assert(store::writes_view(writes@) =~= before + (fold::gathered(i as nat, part) + part(i as int)));
            assert(incoming@.take(i + 1).drop_last() =~= done);
            assert(incoming@.take(i + 1).last() == target);
        }
        fresh.put(key, target);
        i += 1;
    }
    proof {
        fold::lemma_no_error(incoming@.len(), check);
        assert(incoming@.take(i as int) =~= incoming@);
    }
    Ok(fresh)
}

/// The hashes of some records and target occurrences, in byte order.
fn concerned_hashes(records: &Table<Occurrence>, incoming: &Vec<TargetObservation>) -> (r: Vec<B256>)
    requires
        records.wf(),
    ensures
        r@ == EvidenceModel::hash_list(records@, incoming@),
{
    let keys = records.all_keys();
    let ghost listed = table::listed(records@);
    proof {
        records.lemma_lists();
    }
    let mut hashes: Table<B256> = Table::new();
    let mut i: usize = 0;
    while i < keys.len()
        invariant
            i <= keys@.len(),
            records.wf(),
            table::key_views(keys@) == listed,
            table::lists(listed, records@),
            hashes.wf(),
            forall|key: Seq<u8>| #[trigger] hashes@.contains_key(key) ==> hashes@[key].bytes() == key && exists|j: int|
                0 <= j < i && records@[#[trigger] listed[j]].transaction.hash == hashes@[key],
            forall|j: int| 0 <= j < i ==> hashes@.contains_key(records@[#[trigger] listed[j]].transaction.hash.bytes()),
        decreases keys@.len() - i,
    {
        assert(keys@[i as int]@ == listed[i as int]);
        assert(listed.contains(listed[i as int]));
        if let Some(record) = records.get(keys[i].as_slice()) {
            let ghost before = hashes@;
            let hash = record.transaction.hash;
            hashes.put(hash.to_vec(), hash);
            proof {
                assert forall|key: Seq<u8>| #[trigger] hashes@.contains_key(key) implies hashes@[key].bytes() == key && exists|j: int|
                    0 <= j < i + 1 && records@[#[trigger] listed[j]].transaction.hash == hashes@[key] by {
                    if key == hash.bytes() {
                        assert(records@[listed[i as int]].transaction.hash == hashes@[key]);
                    } else {
                        assert(before.contains_key(key));
                    }
                }
            }
        }
        i += 1;
    }
    let mut k: usize = 0;
    while k < incoming.len()
        invariant
            k <= incoming@.len(),
            table::lists(listed, records@),
            hashes.wf(),
            forall|key: Seq<u8>| #[trigger] hashes@.contains_key(key) ==> hashes@[key].bytes() == key && (
                (exists|j: int| 0 <= j < listed.len() && records@[#[trigger] listed[j]].transaction.hash == hashes@[key])
                || (exists|j: int| 0 <= j < k && (#[trigger] incoming@[j]).transaction_hash == hashes@[key])),
            forall|j: int| 0 <= j < listed.len() ==> hashes@.contains_key(records@[#[trigger] listed[j]].transaction.hash.bytes()),
            forall|j: int| 0 <= j < k ==> hashes@.contains_key((#[trigger] incoming@[j]).transaction_hash.bytes()),
        decreases incoming@.len() - k,
    {
        let ghost before = hashes@;
        let hash = incoming[k].transaction_hash;
        hashes.put(hash.to_vec(), hash);
        proof {
            assert forall|key: Seq<u8>| #[trigger] hashes@.contains_key(key) implies hashes@[key].bytes() == key && (
                (exists|j: int| 0 <= j < listed.len() && records@[#[trigger] listed[j]].transaction.hash == hashes@[key])
                || (exists|j: int| 0 <= j < k + 1 && (#[trigger] incoming@[j]).transaction_hash == hashes@[key])) by {
                if key == hash.bytes() {
                    assert(incoming@[k as int].transaction_hash == hashes@[key]);
                } else {
                    assert(before.contains_key(key));
                }
            }
        }
        k += 1;
    }
    let ghost expected = EvidenceModel::hashes_of(records@, incoming@);
    proof {
        assert forall|key: Seq<u8>| #[trigger] hashes@.contains_key(key) <==> expected.contains_key(key) by {
            if hashes@.contains_key(key) {
                let hash = hashes@[key];
                if exists|j: int| 0 <= j < listed.len() && records@[#[trigger] listed[j]].transaction.hash == hash {
                    let j = choose|j: int| 0 <= j < listed.len() && records@[#[trigger] listed[j]].transaction.hash == hash;
                    assert(listed.contains(listed[j]));
                    assert(records@.contains_key(listed[j]));
                }
                assert(EvidenceModel::concerns(records@, incoming@, hash));
                assert(hash.bytes() == key);
            }
            if expected.contains_key(key) {
                let hash = choose|hash: B256| #[trigger] hash.bytes() == key && EvidenceModel::concerns(records@, incoming@, hash);
                if exists|k: Seq<u8>| #[trigger] records@.contains_key(k) && records@[k].transaction.hash == hash {
                    let k = choose|k: Seq<u8>| #[trigger] records@.contains_key(k) && records@[k].transaction.hash == hash;
                    assert(listed.contains(k));
                    let j = choose|j: int| 0 <= j < listed.len() && listed[j] == k;
                    assert(hashes@.contains_key(records@[listed[j]].transaction.hash.bytes()));
                } else {
                    let j = choose|j: int| 0 <= j < incoming@.len() && (#[trigger] incoming@[j]).transaction_hash == hash;
                    assert(hashes@.contains_key(incoming@[j].transaction_hash.bytes()));
                }
            }
        }
        assert forall|key: Seq<u8>| #[trigger] hashes@.contains_key(key) implies hashes@[key] == expected[key] by {
            assert(expected.contains_key(key));
            let other = choose|hash: B256| #[trigger] hash.bytes() == key;
            assert(hashes@[key].bytes() == key);
            words::lemma_hash_injective(hashes@[key], other);
        }
        assert(hashes@ =~= expected);
        hashes.lemma_lists();
    }
    let hash_keys = hashes.all_keys();
    let ghost filed = table::listed(expected);
    let mut out: Vec<B256> = Vec::new();
    let mut n: usize = 0;
    while n < hash_keys.len()
        invariant
            n <= hash_keys@.len(),
            hashes.wf(),
            hashes@ == expected,
            table::key_views(hash_keys@) == filed,
            table::lists(filed, expected),
            out@.len() == n,
            forall|j: int| 0 <= j < n ==> out@[j] == expected[#[trigger] filed[j]],
        decreases hash_keys@.len() - n,
    {
        assert(hash_keys@[n as int]@ == filed[n as int]);
        assert(filed.contains(filed[n as int]));
        if let Some(hash) = hashes.get(hash_keys[n].as_slice()) {
            out.push(*hash);
        }
        n += 1;
    }
    assert(filed.len() == hash_keys@.len());
    assert(out@ =~= EvidenceModel::hash_list(records@, incoming@));
    out
}

impl EvidenceStore {
    /// Matches the records of one hash: each open one, in source order, takes the next target
    /// occurrence.
    fn match_hash(
        &self,
        writes: &mut Vec<Write>,
        records: &mut Table<Occurrence>,
        fresh: &Table<TargetObservation>,
        hash: B256,
    ) -> (r: Result<(), EvidenceError>)
        requires
            self.wf(),
            old(records).wf(),
            fresh.wf(),
        ensures
            final(records).wf(),
            match self@.by_hash_error(hash) {
                Some(error) => r == Err::<(), EvidenceError>(error),
                None => {
                    &&& r is Ok
                    &&& final(records)@ == self@.matched(old(records)@, fresh@, hash)
                    &&& store::writes_view(final(writes)@) == store::writes_view(old(writes)@)
                        + self@.matching_writes(old(records)@, fresh@, hash)
                },
            },
    {
        let ghost given = records@;
        if let Err(error) = self.pull(records, hash) {
            return Err(error);
        }
        let ghost all = records@;
        let targets = self.candidates(fresh, hash);
        let open = open_records(records, hash);
        let keys = targets.all_keys();
        let ghost opened = EvidenceModel::open_records(all, hash);
        let ghost listed = table::listed(targets@);
        let ghost before = store::writes_view(writes@);
        let ghost part = |i: int| EvidenceModel::matched_writes(listed[i], targets@[listed[i]]);
        proof {
            records.lemma_lists();
            targets.lemma_lists();
            table::lemma_filtered(
                table::listed(all),
                |key: Seq<u8>| all[key].transaction.hash == hash && all[key].target is None,
            );
            assert(before + fold::gathered(0, part) =~= before);
            assert forall|j: int| 0 <= j < opened.len() implies all.contains_key(#[trigger] opened[j]) by {
                assert(opened.contains(opened[j]));
                assert(table::listed(all).contains(opened[j]));
            }
        }
        let mut i: usize = 0;
        while i < open.len() && i < keys.len()
            invariant
                i <= open@.len(),
                i <= keys@.len(),
                table::key_views(open@) == opened,
                table::key_views(keys@) == listed,
                table::ascending(opened),
                table::lists(listed, targets@),
                targets.wf(),
                records.wf(),
                forall|j: int| 0 <= j < opened.len() ==> all.contains_key(#[trigger] opened[j]),
                records@ == EvidenceModel::assigned(all, opened, listed, targets@, i as nat),
                forall|j: int| i <= j < opened.len() ==> records@.contains_key(#[trigger] opened[j]) && records@[opened[j]] == all[opened[j]],
                part == (|i: int| EvidenceModel::matched_writes(listed[i], targets@[listed[i]])),
                store::writes_view(writes@) == before + fold::gathered(i as nat, part),
            decreases open@.len() - i,
        {
            assert(open@[i as int]@ == opened[i as int]);
            assert(keys@[i as int]@ == listed[i as int]);
            assert(listed.contains(listed[i as int]));
            let ghost current = records@;
            if let Some(target) = targets.get(keys[i].as_slice()) {
                if let Some(record) = records.get(open[i].as_slice()) {
                    let mut record = record.clone();
                    record.target = Some(*target);
                    let unmatched = Write::Unmatched { key: keys[i].clone(), value: None };
                    let placed = Write::UnmatchedByHeight {
                        key: target_location(target).key_vec(),
                        value: None,
                    };
                    let ghost written = store::writes_view(writes@);
                    proof {
                        assert(seq![unmatched@, placed@] =~= part(i as int));
                    }
                    writes.push(unmatched);
                    writes.push(placed);
                    proof {
                        assert(store::writes_view(writes@) =~= written + seq![unmatched@, placed@]);
                        assert(store::writes_view(writes@) =~= before + (fold::gathered(i as nat, part) + part(i as int)));
                    }
                    let key = open[i].clone();
                    assert(key@ == opened[i as int]);
                    records.put(key, record);
                }
            }
            proof {
                assert forall|j: int| i + 1 <= j < opened.len() implies records@.contains_key(#[trigger] opened[j]) && records@[opened[j]] == all[opened[j]] by {
                    if opened[j] == opened[i as int] {
                        table::lemma_ascending_distinct(opened, j, i as int);
                    }
                    assert(current.contains_key(opened[j]));
                }
            }
            i += 1;
        }
        proof {
            assert(opened.len() == open@.len());
            assert(listed.len() == keys@.len());
            assert(i as nat == EvidenceModel::pairs(opened, listed));
        }
        Ok(())
    }

    /// Keep target occurrences distinct and consume each at most once, including when target
    /// observation precedes source ingestion or the same signed hash occurs repeatedly.
    pub(crate) fn reconcile(
        &self,
        writes: &mut Vec<Write>,
        records: &mut Table<Occurrence>,
        incoming: Vec<TargetObservation>,
    ) -> (r: Result<(), EvidenceError>)
        requires
            self.wf(),
            old(records).wf(),
        ensures
            final(records).wf(),
            match self@.reconcile_error(old(records)@, incoming@) {
                Some(error) => r == Err::<(), EvidenceError>(error),
                None => {
                    &&& r is Ok
                    &&& final(records)@ == self@.reconciled(old(records)@, incoming@)
                    &&& store::writes_view(final(writes)@) == store::writes_view(old(writes)@)
                        + self@.reconcile_writes(old(records)@, incoming@)
                },
            },
    {
        let ghost given = records@;
        let ghost before = store::writes_view(writes@);
        let hashes = concerned_hashes(records, &incoming);
        let fresh = match file_incoming(writes, &incoming) {
            Ok(fresh) => fresh,
            Err(error) => {
                return Err(error);
            },
        };
        let ghost filed = fold::gathered(
            incoming@.len(),
            |i: int| EvidenceModel::unmatched_writes(incoming@[i]),
        );
        let ghost check = |i: int| self@.by_hash_error(hashes@[i]);
        let ghost part = |i: int|
            self@.matching_writes(
                self@.matched_first(given, fresh@, hashes@, i as nat),
                fresh@,
                hashes@[i],
            );
        assert(before + filed + fold::gathered(0, part) =~= before + filed);
        let mut i: usize = 0;
        while i < hashes.len()
            invariant
                i <= hashes@.len(),
                hashes@ == EvidenceModel::hash_list(given, incoming@),
                fold::first_error(incoming@.len(), EvidenceModel::repeated_target(incoming@)) is None,
                self.wf(),
                records.wf(),
                fresh.wf(),
                fresh@ == EvidenceModel::by_target_key(incoming@),
                check == (|i: int| self@.by_hash_error(hashes@[i])),
                part == (|i: int|
                    self@.matching_writes(
                        self@.matched_first(given, fresh@, hashes@, i as nat),
                        fresh@,
                        hashes@[i],
                    )),
                forall|j: int| 0 <= j < i ==> (#[trigger] check(j)) is None,
                records@ == self@.matched_first(given, fresh@, hashes@, i as nat),
                store::writes_view(writes@) == before + filed + fold::gathered(i as nat, part),
                given == old(records)@,
            decreases hashes@.len() - i,
        {
            let ghost checked = check(i as int);
            proof {
                if check(i as int) is Some {
                    fold::lemma_error_at(hashes@.len(), check, i as int);
                }
            }
            if let Err(error) = self.match_hash(writes, records, &fresh, hashes[i]) {
                return Err(error);
            }
            proof {
                assert(before + filed + fold::gathered(i as nat, part) + part(i as int) =~= before + filed + (fold::gathered(i as nat, part) + part(i as int)));
            }
            i += 1;
        }
        proof {
            fold::lemma_no_error(hashes@.len(), check);
            records.lemma_lists();
        }
        let ghost after = records@;
        let ghost matched = fold::gathered(hashes@.len(), part);
        let keys = records.all_keys();
        let ghost listed = table::listed(after);
        let ghost record_part = |i: int| self@.record_writes(after[listed[i]]);
        assert(before + filed + matched + fold::gathered(0, record_part) =~= before + filed + matched);
        let mut k: usize = 0;
        while k < keys.len()
            invariant
                k <= keys@.len(),
                records.wf(),
                records@ == after,
                table::key_views(keys@) == listed,
                table::lists(listed, after),
                record_part == (|i: int| self@.record_writes(after[listed[i]])),
                store::writes_view(writes@) == before + filed + matched + fold::gathered(k as nat, record_part),
            decreases keys@.len() - k,
        {
            assert(keys@[k as int]@ == listed[k as int]);
            assert(listed.contains(listed[k as int]));
            if let Some(record) = records.get(keys[k].as_slice()) {
                self.put_record(writes, record);
            }
            proof {
                assert(before + filed + matched + fold::gathered(k as nat, record_part) + record_part(k as int) =~= before + filed + matched + (fold::gathered(k as nat, record_part) + record_part(k as int)));
            }
            k += 1;
        }
        proof {
            assert(listed.len() == keys@.len());
            assert(before + filed + matched + fold::gathered(listed.len(), record_part) =~= before + (filed + matched + fold::gathered(listed.len(), record_part)));
        }
        Ok(())
    }
}

} // verus!
