//! Read-only inspection of the evidence: records with their findings and what happened around them.

use crate::bytes;
use crate::config;
use crate::evidence::lookup_laws;
use crate::evidence::model;
use crate::evidence::model::EvidenceModel;
use crate::evidence::reconcile;
use crate::evidence::{EvidenceError, EvidenceStore, Progress};
use crate::state;
use crate::state::{Finding, Incident, IncidentModel, Occurrence, OccurrenceId, OccurrenceModel, ReplayIdentity};
use crate::table;
use crate::words::B256;
use vstd::prelude::*;

verus! {

/// How far around a submission incidents are shown, in milliseconds.
pub const AROUND_MS: u64 = 300_000;

/// One record as it is shown.
#[derive(Debug)]
pub struct InspectionRecord {
    pub occurrence: OccurrenceId,
    pub finding: Finding,
    pub evidence: Occurrence,
    pub incidents: Vec<Incident>,
}

/// What an `InspectionRecord` says.
#[verifier::ext_equal]
pub struct InspectionRecordModel {
    pub occurrence: OccurrenceId,
    pub finding: Finding,
    pub evidence: OccurrenceModel,
    pub incidents: Seq<IncidentModel>,
}

impl View for InspectionRecord {
    type V = InspectionRecordModel;

    open spec fn view(&self) -> InspectionRecordModel {
        InspectionRecordModel {
            occurrence: self.occurrence,
            finding: self.finding,
            evidence: self.evidence@,
            incidents: state::incidents_view(self.incidents@),
        }
    }
}

/// What a list of shown records says.
pub open spec fn records_view(records: Seq<InspectionRecord>) -> Seq<InspectionRecordModel> {
    records.map_values(|record: InspectionRecord| record@)
}

/// Contracts speak of a shown record field by field as it is, and of a list in its order.
pub proof fn law_a_shown_record_says_what_it_holds(records: Seq<InspectionRecord>, i: int)
    requires
        0 <= i < records.len(),
    ensures
        records_view(records).len() == records.len(),
        records_view(records)[i].occurrence == records[i].occurrence,
        records_view(records)[i].finding == records[i].finding,
        records_view(records)[i].evidence == records[i].evidence@,
        records_view(records)[i].incidents == state::incidents_view(records[i].incidents@),
{
}

/// One consistent snapshot of the evidence on a transaction.
#[derive(Debug)]
pub struct Inspection {
    pub identity: ReplayIdentity,
    pub observed_at_ms: u64,
    pub progress: Progress,
    pub records: Vec<InspectionRecord>,
}

/// Why nothing is shown.
#[derive(Clone, Copy, Debug, PartialEq, Eq, Structural)]
pub enum InspectError {
    /// Neither a transaction nor a source block was named.
    NothingSelected,
    /// The store belongs to another replay.
    OtherReplay,
    Evidence(EvidenceError),
}

impl InspectError {
    /// What the error says.
    pub open spec fn text(self) -> Seq<char> {
        match self {
            InspectError::NothingSelected => "provide --tx or --source-block/--index"@,
            InspectError::OtherReplay => "config does not match the stored replay identity"@,
            InspectError::Evidence(error) => error.text(),
        }
    }

    /// What the error says.
    pub fn message(&self) -> (r: &'static str)
        ensures
            r@ == self.text(),
    {
        match self {
            InspectError::NothingSelected => "provide --tx or --source-block/--index",
            InspectError::OtherReplay => "config does not match the stored replay identity",
            InspectError::Evidence(error) => error.message(),
        }
    }
}

/// What is looked for: a transaction, or a position in a source block.
#[derive(Clone, Copy, Debug, PartialEq, Eq, Structural)]
pub struct Selection {
    pub tx: Option<B256>,
    pub source_block: Option<u64>,
    pub index: Option<u32>,
}

/// When an occurrence was first submitted, or queued if it never was.
pub open spec fn center(record: OccurrenceModel) -> u64 {
    if record.attempts.len() > 0 {
        record.attempts[0].started_at_ms
    } else {
        record.queued_at_ms
    }
}

/// The end of the time around a center.
pub open spec fn around_end(center: u64) -> u64 {
    if center <= u64::MAX - AROUND_MS {
        (center + AROUND_MS) as u64
    } else {
        u64::MAX
    }
}

/// A record as it is shown: with its finding now, and the incidents around its submission.
pub open spec fn shown(
    m: EvidenceModel,
    id: OccurrenceId,
    record: OccurrenceModel,
    now: u64,
    missing_blocks: u64,
    missing_ms: u64,
) -> InspectionRecordModel {
    InspectionRecordModel {
        occurrence: id,
        finding: record.finding(m.progress.target.height, now, missing_blocks, missing_ms),
        evidence: record,
        incidents: m.incident_keys(
            state::elapsed(center(record), AROUND_MS),
            around_end(center(record)),
        ).map_values(|key: Seq<u8>| m.store.incidents[key]),
    }
}

/// The occurrences that a selection finds, with their records.
pub open spec fn selected(m: EvidenceModel, selection: Selection) -> Result<
    Seq<(OccurrenceId, OccurrenceModel)>,
    EvidenceError,
> {
    match selection.tx {
        Some(hash) => match m.by_hash_error(hash) {
            Some(error) => Err(error),
            None => Ok(m.by_hash(hash)),
        },
        None => match (selection.source_block, selection.index) {
            (Some(source_height), Some(source_index)) => {
                let id = OccurrenceId { source_height, source_index };
                match m.occurrence(id) {
                    Some(record) => Ok(seq![(id, record)]),
                    None => Ok(Seq::empty()),
                }
            },
            _ => Ok(Seq::empty()),
        },
    }
}

/// A record is shown as it is on record, with its finding at the height that the target has reached, and
/// with the incidents from five minutes before its first submission to five minutes after, or around the
/// time it was queued if it was never submitted.
pub proof fn law_a_record_is_shown_with_what_happened_around_it(
    m: EvidenceModel,
    id: OccurrenceId,
    record: OccurrenceModel,
    now: u64,
    missing_blocks: u64,
    missing_ms: u64,
    at_ms: u64,
    number: u64,
)
    requires
        m.store.finite(),
        shown(m, id, record, now, missing_blocks, missing_ms).incidents.len() < 1000,
        m.store.incidents.contains_key(bytes::be(at_ms as nat, 8) + bytes::be(number as nat, 8)),
    ensures
        ({
            let view = shown(m, id, record, now, missing_blocks, missing_ms);
            let incident = m.store.incidents[bytes::be(at_ms as nat, 8) + bytes::be(number as nat, 8)];
            let middle = if record.attempts.len() > 0 { record.attempts[0].started_at_ms } else { record.queued_at_ms };
            &&& view.occurrence == id
            &&& view.evidence == record
            &&& view.finding == record.finding(m.progress.target.height, now, missing_blocks, missing_ms)
            &&& middle - 300_000 <= at_ms <= middle + 300_000 ==> view.incidents.contains(incident)
        }),
{
    let middle = if record.attempts.len() > 0 { record.attempts[0].started_at_ms } else { record.queued_at_ms };
    let (from_ms, to_ms) = (state::elapsed(center(record), AROUND_MS), around_end(center(record)));
    let keys = m.incident_keys(from_ms, to_ms);
    let view = shown(m, id, record, now, missing_blocks, missing_ms);
    assert(view.incidents.len() == keys.len());
    lookup_laws::law_a_period_shows_its_incidents_in_order(m, from_ms, to_ms, at_ms, number);
    let key = bytes::be(at_ms as nat, 8) + bytes::be(number as nat, 8);
    if middle - 300_000 <= at_ms <= middle + 300_000 {
        assert(keys.contains(key));
        let i = choose|i: int| 0 <= i < keys.len() && keys[i] == key;
        assert(view.incidents[i] == m.store.incidents[key]);
    }
}

/// No incident further than five minutes from that time is shown.
pub proof fn law_nothing_further_away_is_shown(
    m: EvidenceModel,
    id: OccurrenceId,
    record: OccurrenceModel,
    now: u64,
    missing_blocks: u64,
    missing_ms: u64,
    i: int,
)
    requires
        m.store.finite(),
        0 <= i < shown(m, id, record, now, missing_blocks, missing_ms).incidents.len() < 1000,
        forall|key: Seq<u8>| #[trigger] m.store.incidents.contains_key(key) ==> exists|number: u64|
            key == #[trigger] model::incident_key(m.store.incidents[key].observed_at_ms, number as nat),
    ensures
        ({
            let incident = shown(m, id, record, now, missing_blocks, missing_ms).incidents[i];
            let middle = if record.attempts.len() > 0 { record.attempts[0].started_at_ms } else { record.queued_at_ms };
            middle - 300_000 <= incident.observed_at_ms <= middle + 300_000
        }),
{
    let (from_ms, to_ms) = (state::elapsed(center(record), AROUND_MS), around_end(center(record)));
    let keys = m.incident_keys(from_ms, to_ms);
    let view = shown(m, id, record, now, missing_blocks, missing_ms);
    assert(view.incidents.len() == keys.len());
    table::lemma_finite_lists(m.store.incidents);
    table::lemma_in_range(
        m.store.incidents,
        bytes::be(from_ms as nat, 8),
        bytes::be(to_ms as nat, 8) + Seq::new(8, |i: int| 0xffu8),
        1000,
    );
    let incident = m.store.incidents[keys[i]];
    assert(m.store.incidents.contains_key(keys[i]));
    let number = choose|number: u64| keys[i] == #[trigger] model::incident_key(incident.observed_at_ms, number as nat);
    lookup_laws::law_a_period_shows_its_incidents_in_order(m, from_ms, to_ms, incident.observed_at_ms, number);
    assert(keys.contains(keys[i]));
}

/// A transaction is looked for by its hash, whatever else is named, and finds all its occurrences; a
/// position finds the occurrence there, if it is on record; a block without a position finds none.
pub proof fn law_a_selection_finds_what_it_names(m: EvidenceModel, selection: Selection)
    ensures
        selection.tx matches Some(hash) ==> match m.by_hash_error(hash) {
            Some(error) => selected(m, selection) == Err::<Seq<(OccurrenceId, OccurrenceModel)>, EvidenceError>(error),
            None => selected(m, selection) == Ok::<Seq<(OccurrenceId, OccurrenceModel)>, EvidenceError>(m.by_hash(hash)),
        },
        selection.tx is None ==> selected(m, selection) is Ok,
        selection.tx is None && selection.source_block is Some && selection.index is Some ==> ({
            let id = OccurrenceId { source_height: selection.source_block->0, source_index: selection.index->0 };
            let found = selected(m, selection)->Ok_0;
            &&& m.occurrence(id) is None ==> found.len() == 0
            &&& m.occurrence(id) is Some ==> found.len() == 1 && found[0] == (id, m.occurrence(id)->0)
        }),
        selection.tx is None && (selection.source_block is None || selection.index is None) ==> selected(m, selection)->Ok_0.len()
            == 0,
{
}

fn select(store: &EvidenceStore, selection: Selection) -> (r: Result<
    Vec<(OccurrenceId, Occurrence)>,
    EvidenceError,
>)
    requires
        store.wf(),
    ensures
        match selected(store@, selection) {
            Err(error) => r == Err::<Vec<(OccurrenceId, Occurrence)>, EvidenceError>(error),
            Ok(found) => r matches Ok(list) && reconcile::found_view(list@) == found,
        },
{
    if let Some(hash) = selection.tx {
        return store.by_hash(hash);
    }
    let mut out: Vec<(OccurrenceId, Occurrence)> = Vec::new();
    if let (Some(source_height), Some(source_index)) = (selection.source_block, selection.index) {
        let id = OccurrenceId { source_height, source_index };
        if let Some(record) = store.occurrence(id) {
            let ghost said = record@;
            out.push((id, record));
            assert(reconcile::found_view(out@) =~= seq![(id, said)]);
            return Ok(out);
        }
    }
    assert(reconcile::found_view(out@) =~= Seq::empty());
    Ok(out)
}

fn show(
    store: &EvidenceStore,
    id: OccurrenceId,
    record: &Occurrence,
    now: u64,
    missing_blocks: u64,
    missing_ms: u64,
) -> (r: InspectionRecord)
    requires
        store.wf(),
    ensures
        r@ == shown(store@, id, record@, now, missing_blocks, missing_ms),
{
    let middle: u64 = if record.attempts.len() > 0 {
        assert(record@.attempts[0] == record.attempts@[0]@);
        record.attempts[0].started_at_ms
    } else {
        record.queued_at_ms
    };
    InspectionRecord {
        occurrence: id,
        finding: record.finding(store.progress().target.height, now, missing_blocks, missing_ms),
        evidence: record.clone(),
        incidents: store.incidents(
            middle.saturating_sub(AROUND_MS),
            middle.saturating_add(AROUND_MS),
        ),
    }
}

/// Shows what the store holds on a transaction or a source position. `missing_seconds` is the
/// window after which a delivered transaction is missing.
pub fn inspect(
    store: &EvidenceStore,
    identity: ReplayIdentity,
    selection: Selection,
    now: u64,
    missing_blocks: u64,
    missing_seconds: u64,
) -> (r: Result<Inspection, InspectError>)
    requires
        store.wf(),
    ensures
        if selection.tx is None && selection.source_block is None {
            r matches Err(error) && error == InspectError::NothingSelected
        } else if store@.store.meta->0.identity != identity {
            r matches Err(error) && error == InspectError::OtherReplay
        } else {
            match selected(store@, selection) {
                Err(refused) => r matches Err(error) && error == InspectError::Evidence(refused),
                Ok(found) => r matches Ok(inspection) && {
                    &&& inspection.identity == identity
                    &&& inspection.observed_at_ms == now
                    &&& inspection.progress == store@.progress
                    &&& records_view(inspection.records@) == found.map_values(
                        |entry: (OccurrenceId, OccurrenceModel)|
                            shown(
                                store@,
                                entry.0,
                                entry.1,
                                now,
                                missing_blocks,
                                ((missing_seconds * 1000) % 0x1_0000_0000_0000_0000) as u64,
                            ),
                    )
                },
            }
        },
{
    if selection.tx.is_none() && selection.source_block.is_none() {
        return Err(InspectError::NothingSelected);
    }
    if store.identity() != identity {
        return Err(InspectError::OtherReplay);
    }
    let missing_ms: u64 = config::millis(missing_seconds);
    let found = match select(store, selection) {
        Ok(found) => found,
        Err(error) => {
            return Err(InspectError::Evidence(error));
        },
    };
    let ghost said = reconcile::found_view(found@);
    let mut records: Vec<InspectionRecord> = Vec::new();
    let mut i: usize = 0;
    while i < found.len()
        invariant
            i <= found@.len(),
            store.wf(),
            said == reconcile::found_view(found@),
            records@.len() == i,
            forall|j: int| 0 <= j < i ==> (#[trigger] records@[j])@ == shown(
                store@,
                said[j].0,
                said[j].1,
                now,
                missing_blocks,
                missing_ms,
            ),
        decreases found@.len() - i,
    {
        assert(said[i as int] == (found@[i as int].0, found@[i as int].1@));
        records.push(show(store, found[i].0, &found[i].1, now, missing_blocks, missing_ms));
        i += 1;
    }
    assert(records_view(records@) =~= said.map_values(
        |entry: (OccurrenceId, OccurrenceModel)|
            shown(store@, entry.0, entry.1, now, missing_blocks, missing_ms),
    ));
    Ok(
        Inspection {
            identity,
            observed_at_ms: now,
            progress: store.progress(),
            records,
        },
    )
}

} // verus!
