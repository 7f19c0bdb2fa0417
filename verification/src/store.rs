//! The columns of the evidence store and the atomic batches that change them.

use crate::evidence::{Progress, SourceBlock, SourceBlockModel};
use crate::state::{Incident, IncidentModel, Occurrence, OccurrenceModel, ReplayIdentity, TargetObservation};
use crate::table;
use crate::table::Table;
use vstd::prelude::*;
use vstd::string::StringExecFns;
use vstd::string::StrSliceExecFns;

verus! {

/// The layout of the columns. A store of another layout is refused, never migrated.
pub const SCHEMA: u32 = 4;

/// The longest error text that is kept, in characters.
pub const MAX_ERROR_CHARS: usize = 4096;

/// The part of an error text that is kept.
pub open spec fn bounded(message: Seq<char>) -> Seq<char> {
    if message.len() <= MAX_ERROR_CHARS {
        message
    } else {
        message.take(MAX_ERROR_CHARS as int)
    }
}

/// A text is kept whole up to 4096 characters, and of a longer one the first 4096 are.
pub proof fn law_the_first_characters_are_kept(message: Seq<char>)
    ensures
        message.len() <= 4096 ==> bounded(message) == message,
        message.len() > 4096 ==> bounded(message).len() == 4096 && forall|i: int| 0 <= i < 4096 ==> #[trigger] bounded(
            message,
        )[i] == message[i],
{
}

/// Cuts an error text to a bounded length.
pub fn bounded_error(message: String) -> (r: String)
    ensures
        r@ == bounded(message@),
{
    if message.as_str().unicode_len() <= MAX_ERROR_CHARS {
        message
    } else {
        let kept = String::from_str(message.as_str().substring_char(0, MAX_ERROR_CHARS));
        assert(kept@ =~= bounded(message@));
        kept
    }
}

/// A bounded text is not cut again.
pub proof fn law_bounding_is_idempotent(message: Seq<char>)
    ensures
        bounded(bounded(message)) == bounded(message),
        bounded(message).len() <= MAX_ERROR_CHARS,
{
}

/// What a store was made for.
#[derive(Clone, Copy, Debug, PartialEq, Eq, Structural)]
pub struct StoreMeta {
    pub schema: u32,
    pub identity: ReplayIdentity,
}

/// How much room the store may take.
#[derive(Clone, Copy, Debug, PartialEq, Eq, Structural)]
pub struct StoreLimits {
    pub max_bytes: u64,
    pub min_free_bytes: u64,
}

/// How much room the store takes and how much the disk has left.
#[derive(Clone, Copy, Debug, PartialEq, Eq, Structural)]
pub struct DiskUsage {
    pub used_bytes: u64,
    pub free_bytes: u64,
}

impl StoreLimits {
    pub open spec fn admits_spec(self, usage: DiskUsage) -> bool {
        usage.used_bytes <= self.max_bytes && usage.free_bytes >= self.min_free_bytes
    }

    /// Whether the store may grow at this usage.
    pub fn admits(&self, usage: DiskUsage) -> (r: bool)
        ensures
            r == self.admits_spec(usage),
    {
        usage.used_bytes <= self.max_bytes && usage.free_bytes >= self.min_free_bytes
    }
}

/// One change of one column.
#[allow(inconsistent_fields)]
pub enum Write {
    Record { key: Vec<u8>, value: Option<Occurrence> },
    Hash { key: Vec<u8>, present: bool },
    Unmatched { key: Vec<u8>, value: Option<TargetObservation> },
    UnmatchedByHeight { key: Vec<u8>, value: Option<Vec<u8>> },
    Block { key: Vec<u8>, value: Option<SourceBlock> },
    Clean { key: Vec<u8>, present: bool },
    Pending { key: Vec<u8>, present: bool },
    Recovery { key: Vec<u8>, present: bool },
    Incident { key: Vec<u8>, value: Incident },
}

/// What a `Write` says.
#[allow(inconsistent_fields)]
pub enum WriteModel {
    Record { key: Seq<u8>, value: Option<OccurrenceModel> },
    Hash { key: Seq<u8>, present: bool },
    Unmatched { key: Seq<u8>, value: Option<TargetObservation> },
    UnmatchedByHeight { key: Seq<u8>, value: Option<Seq<u8>> },
    Block { key: Seq<u8>, value: Option<SourceBlockModel> },
    Clean { key: Seq<u8>, present: bool },
    Pending { key: Seq<u8>, present: bool },
    Recovery { key: Seq<u8>, present: bool },
    Incident { key: Seq<u8>, value: IncidentModel },
}

impl View for Write {
    type V = WriteModel;

    open spec fn view(&self) -> WriteModel {
        match *self {
            Write::Record { key, value } => WriteModel::Record {
                key: key@,
                value: match value {
                    Some(value) => Some(value@),
                    None => None,
                },
            },
            Write::Hash { key, present } => WriteModel::Hash { key: key@, present },
            Write::Unmatched { key, value } => WriteModel::Unmatched { key: key@, value },
            Write::UnmatchedByHeight { key, value } => WriteModel::UnmatchedByHeight {
                key: key@,
                value: match value {
                    Some(value) => Some(value@),
                    None => None,
                },
            },
            Write::Block { key, value } => WriteModel::Block {
                key: key@,
                value: match value {
                    Some(value) => Some(value@),
                    None => None,
                },
            },
            Write::Clean { key, present } => WriteModel::Clean { key: key@, present },
            Write::Pending { key, present } => WriteModel::Pending { key: key@, present },
            Write::Recovery { key, present } => WriteModel::Recovery { key: key@, present },
            Write::Incident { key, value } => WriteModel::Incident { key: key@, value: value@ },
        }
    }
}

/// What a batch says.
pub open spec fn writes_view(writes: Seq<Write>) -> Seq<WriteModel> {
    writes.map_values(|write: Write| write@)
}

/// A batch and, where it moved, the progress that was committed with it.
pub struct Commit {
    pub writes: Vec<Write>,
    pub progress: Option<Progress>,
}

/// What a `Commit` says.
#[verifier::ext_equal]
pub struct CommitModel {
    pub writes: Seq<WriteModel>,
    pub progress: Option<Progress>,
}

impl View for Commit {
    type V = CommitModel;

    open spec fn view(&self) -> CommitModel {
        CommitModel { writes: writes_view(self.writes@), progress: self.progress }
    }
}

/// What the columns hold.
#[verifier::ext_equal]
pub struct StoreModel {
    pub meta: Option<StoreMeta>,
    pub progress: Option<Progress>,
    pub records: Map<Seq<u8>, OccurrenceModel>,
    pub hashes: Map<Seq<u8>, ()>,
    pub unmatched: Map<Seq<u8>, TargetObservation>,
    pub unmatched_by_height: Map<Seq<u8>, Seq<u8>>,
    pub blocks: Map<Seq<u8>, SourceBlockModel>,
    pub clean: Map<Seq<u8>, ()>,
    pub pending: Map<Seq<u8>, ()>,
    pub recovery: Map<Seq<u8>, ()>,
    pub incidents: Map<Seq<u8>, IncidentModel>,
}

/// Contracts speak of a commit as it is: of its changes in their order, each of its own column, key and
/// value, and of its progress.
pub proof fn law_a_commit_says_what_it_holds(commit: Commit, i: int)
    requires
        0 <= i < commit.writes@.len(),
    ensures
        commit@.progress == commit.progress,
        commit@.writes.len() == commit.writes@.len(),
        ({
            let said = commit@.writes[i];
            match commit.writes@[i] {
                Write::Record { key, value } => said is Record && said->Record_key == key@ && (said->Record_value is Some
                    <==> value is Some) && (value matches Some(value) ==> said->Record_value == Some(value@)),
                Write::Hash { key, present } => said == (WriteModel::Hash { key: key@, present }),
                Write::Unmatched { key, value } => said == (WriteModel::Unmatched { key: key@, value }),
                Write::UnmatchedByHeight { key, value } => said is UnmatchedByHeight && said->UnmatchedByHeight_key == key@ && (
                said->UnmatchedByHeight_value is Some <==> value is Some) && (value matches Some(value)
                    ==> said->UnmatchedByHeight_value == Some(value@)),
                Write::Block { key, value } => said is Block && said->Block_key == key@ && (said->Block_value is Some <==> value is Some)
                    && (value matches Some(value) ==> said->Block_value == Some(value@)),
                Write::Clean { key, present } => said == (WriteModel::Clean { key: key@, present }),
                Write::Pending { key, present } => said == (WriteModel::Pending { key: key@, present }),
                Write::Recovery { key, present } => said == (WriteModel::Recovery { key: key@, present }),
                Write::Incident { key, value } => said == (WriteModel::Incident { key: key@, value: value@ }),
            }
        }),
{
}

/// A change files, replaces or removes one entry of one column: what is under its key is then what it
/// says, and everything under another key or in another column is as it was.
pub proof fn law_a_change_is_of_one_entry(at: StoreModel, key: Seq<u8>, other: Seq<u8>, present: bool, value: Option<OccurrenceModel>)
    requires
        other != key,
    ensures
        ({
            let after = at.write(WriteModel::Record { key, value });
            &&& after == (StoreModel { records: after.records, ..at })
            &&& after.records.contains_key(key) <==> value is Some
            &&& value matches Some(value) ==> after.records[key] == value
            &&& after.records.contains_key(other) == at.records.contains_key(other) && after.records[other] == at.records[other]
        }),
        ({
            let after = at.write(WriteModel::Hash { key, present });
            &&& after == (StoreModel { hashes: after.hashes, ..at })
            &&& after.hashes.contains_key(key) <==> present
            &&& after.hashes.contains_key(other) == at.hashes.contains_key(other)
        }),
        ({
            let after = at.write(WriteModel::Clean { key, present });
            &&& after == (StoreModel { clean: after.clean, ..at })
            &&& after.clean.contains_key(key) <==> present
            &&& after.clean.contains_key(other) == at.clean.contains_key(other)
        }),
        ({
            let after = at.write(WriteModel::Pending { key, present });
            &&& after == (StoreModel { pending: after.pending, ..at })
            &&& after.pending.contains_key(key) <==> present
            &&& after.pending.contains_key(other) == at.pending.contains_key(other)
        }),
        ({
            let after = at.write(WriteModel::Recovery { key, present });
            &&& after == (StoreModel { recovery: after.recovery, ..at })
            &&& after.recovery.contains_key(key) <==> present
            &&& after.recovery.contains_key(other) == at.recovery.contains_key(other)
        }),
{
}

/// A column after one key was filed anew or removed.
pub open spec fn filed<V>(column: Map<Seq<u8>, V>, key: Seq<u8>, value: Option<V>) -> Map<
    Seq<u8>,
    V,
> {
    match value {
        Some(value) => column.insert(key, value),
        None => column.remove(key),
    }
}

/// A column without values after one key was marked present or absent.
pub open spec fn marked(column: Map<Seq<u8>, ()>, key: Seq<u8>, present: bool) -> Map<Seq<u8>, ()> {
    if present {
        column.insert(key, ())
    } else {
        column.remove(key)
    }
}

impl StoreModel {
    /// The columns after one change.
    pub open spec fn write(self, write: WriteModel) -> StoreModel {
        match write {
            WriteModel::Record { key, value } => StoreModel {
                records: filed(self.records, key, value),
                ..self
            },
            WriteModel::Hash { key, present } => StoreModel {
                hashes: marked(self.hashes, key, present),
                ..self
            },
            WriteModel::Unmatched { key, value } => StoreModel {
                unmatched: filed(self.unmatched, key, value),
                ..self
            },
            WriteModel::UnmatchedByHeight { key, value } => StoreModel {
                unmatched_by_height: filed(self.unmatched_by_height, key, value),
                ..self
            },
            WriteModel::Block { key, value } => StoreModel {
                blocks: filed(self.blocks, key, value),
                ..self
            },
            WriteModel::Clean { key, present } => StoreModel {
                clean: marked(self.clean, key, present),
                ..self
            },
            WriteModel::Pending { key, present } => StoreModel {
                pending: marked(self.pending, key, present),
                ..self
            },
            WriteModel::Recovery { key, present } => StoreModel {
                recovery: marked(self.recovery, key, present),
                ..self
            },
            WriteModel::Incident { key, value } => StoreModel {
                incidents: self.incidents.insert(key, value),
                ..self
            },
        }
    }

    /// The columns after a batch of changes, in order.
    pub open spec fn write_all(self, writes: Seq<WriteModel>) -> StoreModel
        decreases writes.len(),
    {
        if writes.len() == 0 {
            self
        } else {
            self.write_all(writes.drop_last()).write(writes.last())
        }
    }

    /// The columns after a commit.
    pub open spec fn commit(self, commit: CommitModel) -> StoreModel {
        let written = self.write_all(commit.writes);
        match commit.progress {
            Some(progress) => StoreModel { progress: Some(progress), ..written },
            None => written,
        }
    }

    /// The columns after some commits, in order.
    pub open spec fn replay(self, commits: Seq<CommitModel>) -> StoreModel
        decreases commits.len(),
    {
        if commits.len() == 0 {
            self
        } else {
            self.replay(commits.drop_last()).commit(commits.last())
        }
    }

    /// Every column has finitely many keys.
    pub open spec fn finite(self) -> bool {
        &&& self.records.dom().finite()
        &&& self.hashes.dom().finite()
        &&& self.unmatched.dom().finite()
        &&& self.unmatched_by_height.dom().finite()
        &&& self.blocks.dom().finite()
        &&& self.clean.dom().finite()
        &&& self.pending.dom().finite()
        &&& self.recovery.dom().finite()
        &&& self.incidents.dom().finite()
    }

    /// A store that holds nothing and was made for nothing yet.
    pub open spec fn nothing() -> StoreModel {
        StoreModel {
            meta: None,
            progress: None,
            records: Map::empty(),
            hashes: Map::empty(),
            unmatched: Map::empty(),
            unmatched_by_height: Map::empty(),
            blocks: Map::empty(),
            clean: Map::empty(),
            pending: Map::empty(),
            recovery: Map::empty(),
            incidents: Map::empty(),
        }
    }
}

/// Two batches one after the other are one batch.
pub proof fn lemma_write_all_concat(store: StoreModel, a: Seq<WriteModel>, b: Seq<WriteModel>)
    ensures
        store.write_all(a + b) == store.write_all(a).write_all(b),
    decreases b.len(),
{
    if b.len() == 0 {
        assert(a + b =~= a);
    } else {
        lemma_write_all_concat(store, a, b.drop_last());
        assert((a + b).drop_last() =~= a + b.drop_last());
    }
}

/// A batch does not change what a store was made for, nor the progress.
pub proof fn lemma_write_all_keeps(store: StoreModel, writes: Seq<WriteModel>)
    ensures
        store.write_all(writes).meta == store.meta,
        store.write_all(writes).progress == store.progress,
    decreases writes.len(),
{
    if writes.len() > 0 {
        lemma_write_all_keeps(store, writes.drop_last());
    }
}

/// A batch leaves every column with finitely many keys.
pub proof fn lemma_write_all_finite(store: StoreModel, writes: Seq<WriteModel>)
    requires
        store.finite(),
    ensures
        store.write_all(writes).finite(),
    decreases writes.len(),
{
    if writes.len() > 0 {
        lemma_write_all_finite(store, writes.drop_last());
    }
}

/// The evidence store: every column, what it was made for, and the last committed progress.
pub struct Store {
    meta: Option<StoreMeta>,
    progress: Option<Progress>,
    records: Table<Occurrence>,
    hashes: Table<()>,
    unmatched: Table<TargetObservation>,
    unmatched_by_height: Table<Vec<u8>>,
    blocks: Table<SourceBlock>,
    clean: Table<()>,
    pending: Table<()>,
    recovery: Table<()>,
    incidents: Table<Incident>,
}

impl View for Store {
    type V = StoreModel;

    closed spec fn view(&self) -> StoreModel {
        StoreModel {
            meta: self.meta,
            progress: self.progress,
            records: self.records@,
            hashes: self.hashes@,
            unmatched: self.unmatched@,
            unmatched_by_height: self.unmatched_by_height@,
            blocks: self.blocks@,
            clean: self.clean@,
            pending: self.pending@,
            recovery: self.recovery@,
            incidents: self.incidents@,
        }
    }
}

impl Store {
    /// Every column is in key order.
    pub closed spec fn wf(&self) -> bool {
        &&& self.records.wf()
        &&& self.hashes.wf()
        &&& self.unmatched.wf()
        &&& self.unmatched_by_height.wf()
        &&& self.blocks.wf()
        &&& self.clean.wf()
        &&& self.pending.wf()
        &&& self.recovery.wf()
        &&& self.incidents.wf()
    }

    /// Every column can be listed.
    pub proof fn lemma_listings(&self)
        requires
            self.wf(),
        ensures
            table::lists(table::listed(self@.records), self@.records),
            table::lists(table::listed(self@.hashes), self@.hashes),
            table::lists(table::listed(self@.unmatched), self@.unmatched),
            table::lists(table::listed(self@.unmatched_by_height), self@.unmatched_by_height),
            table::lists(table::listed(self@.clean), self@.clean),
            table::lists(table::listed(self@.pending), self@.pending),
            table::lists(table::listed(self@.recovery), self@.recovery),
            table::lists(table::listed(self@.incidents), self@.incidents),
    {
        self.records.lemma_lists();
        self.hashes.lemma_lists();
        self.unmatched.lemma_lists();
        self.unmatched_by_height.lemma_lists();
        self.clean.lemma_lists();
        self.pending.lemma_lists();
        self.recovery.lemma_lists();
        self.incidents.lemma_lists();
    }

    /// A store that holds nothing yet.
    pub fn empty() -> (r: Self)
        ensures
            r.wf(),
            r@ == StoreModel::nothing(),
    {
        let r = Store {
            meta: None,
            progress: None,
            records: Table::new(),
            hashes: Table::new(),
            unmatched: Table::new(),
            unmatched_by_height: Table::new(),
            blocks: Table::new(),
            clean: Table::new(),
            pending: Table::new(),
            recovery: Table::new(),
            incidents: Table::new(),
        };
        assert(r@ =~= StoreModel::nothing());
        r
    }

    /// What the store was made for.
    pub fn meta(&self) -> (r: Option<StoreMeta>)
        ensures
            r == self@.meta,
    {
        self.meta
    }

    /// Records what the store is made for.
    pub fn stamp(&mut self, meta: StoreMeta)
        requires
            old(self).wf(),
        ensures
            final(self).wf(),
            final(self)@ == (StoreModel { meta: Some(meta), ..old(self)@ }),
    {
        self.meta = Some(meta);
    }

    /// The progress that was committed last.
    pub fn progress(&self) -> (r: Option<Progress>)
        ensures
            r == self@.progress,
    {
        self.progress
    }

    pub fn record(&self, key: &[u8]) -> (r: Option<&Occurrence>)
        requires
            self.wf(),
        ensures
            r is Some <==> self@.records.contains_key(key@),
            r matches Some(value) ==> value@ == self@.records[key@],
    {
        self.records.get(key)
    }

    pub fn unmatched(&self, key: &[u8]) -> (r: Option<&TargetObservation>)
        requires
            self.wf(),
        ensures
            r is Some <==> self@.unmatched.contains_key(key@),
            r matches Some(value) ==> *value == self@.unmatched[key@],
    {
        self.unmatched.get(key)
    }

    pub fn unmatched_by_height(&self, key: &[u8]) -> (r: Option<&Vec<u8>>)
        requires
            self.wf(),
        ensures
            r is Some <==> self@.unmatched_by_height.contains_key(key@),
            r matches Some(value) ==> value@ == self@.unmatched_by_height[key@],
    {
        self.unmatched_by_height.get(key)
    }

    pub fn block(&self, key: &[u8]) -> (r: Option<&SourceBlock>)
        requires
            self.wf(),
        ensures
            r is Some <==> self@.blocks.contains_key(key@),
            r matches Some(value) ==> value@ == self@.blocks[key@],
    {
        self.blocks.get(key)
    }

    pub fn incident(&self, key: &[u8]) -> (r: Option<&Incident>)
        requires
            self.wf(),
        ensures
            r is Some <==> self@.incidents.contains_key(key@),
            r matches Some(value) ==> value@ == self@.incidents[key@],
    {
        self.incidents.get(key)
    }

    pub fn hash_keys(&self, prefix: &[u8], limit: usize) -> (r: Vec<Vec<u8>>)
        requires
            self.wf(),
        ensures
            table::key_views(r@) == table::under_prefix(self@.hashes, prefix@, limit as nat),
    {
        self.hashes.prefix_keys(prefix, limit)
    }

    pub fn unmatched_keys(&self, prefix: &[u8], limit: usize) -> (r: Vec<Vec<u8>>)
        requires
            self.wf(),
        ensures
            table::key_views(r@) == table::under_prefix(self@.unmatched, prefix@, limit as nat),
    {
        self.unmatched.prefix_keys(prefix, limit)
    }

    pub fn unmatched_by_height_keys(&self, prefix: &[u8], limit: usize) -> (r: Vec<Vec<u8>>)
        requires
            self.wf(),
        ensures
            table::key_views(r@) == table::under_prefix(
                self@.unmatched_by_height,
                prefix@,
                limit as nat,
            ),
    {
        self.unmatched_by_height.prefix_keys(prefix, limit)
    }

    pub fn clean_keys(&self, prefix: &[u8], limit: usize) -> (r: Vec<Vec<u8>>)
        requires
            self.wf(),
        ensures
            table::key_views(r@) == table::under_prefix(self@.clean, prefix@, limit as nat),
    {
        self.clean.prefix_keys(prefix, limit)
    }

    pub fn pending_keys(&self, prefix: &[u8], limit: usize) -> (r: Vec<Vec<u8>>)
        requires
            self.wf(),
        ensures
            table::key_views(r@) == table::under_prefix(self@.pending, prefix@, limit as nat),
    {
        self.pending.prefix_keys(prefix, limit)
    }

    pub fn recovery_keys(&self, start: &[u8], end: &[u8], limit: usize) -> (r: Vec<Vec<u8>>)
        requires
            self.wf(),
        ensures
            table::key_views(r@) == table::in_range(
                self@.recovery,
                start@,
                end@,
                limit as nat,
            ),
    {
        self.recovery.range_keys(start, end, limit)
    }

    pub fn incident_keys(&self, start: &[u8], end: &[u8], limit: usize) -> (r: Vec<Vec<u8>>)
        requires
            self.wf(),
        ensures
            table::key_views(r@) == table::in_range(
                self@.incidents,
                start@,
                end@,
                limit as nat,
            ),
    {
        self.incidents.range_keys(start, end, limit)
    }

    fn mark(column: &mut Table<()>, key: &Vec<u8>, present: bool)
        requires
            old(column).wf(),
        ensures
            final(column).wf(),
            final(column)@ == marked(old(column)@, key@, present),
    {
        if present {
            column.put(key.clone(), ());
        } else {
            column.delete(key.as_slice());
        }
    }

    /// Makes one change.
    pub fn write(&mut self, write: &Write)
        requires
            old(self).wf(),
        ensures
            final(self).wf(),
            final(self)@ == old(self)@.write(write@),
    {
        match write {
            Write::Record { key, value } => match value {
                Some(value) => self.records.put(key.clone(), value.clone()),
                None => self.records.delete(key.as_slice()),
            },
            Write::Hash { key, present } => Self::mark(&mut self.hashes, key, *present),
            Write::Unmatched { key, value } => match value {
                Some(value) => self.unmatched.put(key.clone(), *value),
                None => self.unmatched.delete(key.as_slice()),
            },
            Write::UnmatchedByHeight { key, value } => match value {
                Some(value) => self.unmatched_by_height.put(key.clone(), value.clone()),
                None => self.unmatched_by_height.delete(key.as_slice()),
            },
            Write::Block { key, value } => match value {
                Some(value) => self.blocks.put(key.clone(), value.clone()),
                None => self.blocks.delete(key.as_slice()),
            },
            Write::Clean { key, present } => Self::mark(&mut self.clean, key, *present),
            Write::Pending { key, present } => Self::mark(&mut self.pending, key, *present),
            Write::Recovery { key, present } => Self::mark(&mut self.recovery, key, *present),
            Write::Incident { key, value } => self.incidents.put(key.clone(), value.clone()),
        }
    }

    /// Makes the changes of a commit, all of them.
    pub fn commit(&mut self, commit: &Commit)
        requires
            old(self).wf(),
        ensures
            final(self).wf(),
            final(self)@ == old(self)@.commit(commit@),
    {
        let ghost before = self@;
        let mut i: usize = 0;
        while i < commit.writes.len()
            invariant
                self.wf(),
                i <= commit.writes@.len(),
                self@ == before.write_all(commit@.writes.take(i as int)),
            decreases commit.writes@.len() - i,
        {
            self.write(&commit.writes[i]);
            i += 1;
            proof {
                let done = commit@.writes.take(i as int);
                assert(done.drop_last() =~= commit@.writes.take(i - 1));
                assert(done.last() == commit.writes@[i - 1]@);
            }
        }
        assert(commit@.writes.take(i as int) =~= commit@.writes);
        if let Some(progress) = commit.progress {
            self.progress = Some(progress);
        }
    }
}

} // verus!
