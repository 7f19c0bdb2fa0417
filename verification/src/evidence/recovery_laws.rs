//! Recovery, told by what is on record and what is retried.

use crate::bytes;
use crate::evidence::consistency;
use crate::evidence::model;
use crate::evidence::model::EvidenceModel;
use crate::evidence::retention_laws;
use crate::evidence::round_laws;
use crate::fold;
use crate::foreign;
use crate::state;
use crate::state::{Disposition, OccurrenceId, OccurrenceModel};
use crate::store::{StoreModel, WriteModel};
use crate::table;
use crate::words::B256;
use vstd::prelude::*;

verus! {

/// A record that is filed stands in the recovery index if and only if a submission of it is open, or
/// it is not on the target, has rounds left and its signed window is open on the target's clock and
/// three seconds more, and its delivery is unknown: a round without an outcome, no attempt, an
/// ambiguous last one, or one that the node rejected by name for what a later head can lift. It is
/// pending if and only if it is not on the target.
pub proof fn law_a_filed_record_is_indexed_for_what_can_be_done(m: EvidenceModel, at: StoreModel, record: OccurrenceModel)
    ensures
        ({
            let after = at.write_all(m.record_writes(record));
            let key = record.id().key_bytes();
            let last = record.attempts[record.attempts.len() - 1];
            let failure = last.failure->0;
            let name = foreign::json_text_member(failure.data->0, "name"@);
            &&& after.records.contains_key(key) && after.records[key] == record
            &&& after.pending.contains_key(key) <==> record.target is None
            &&& after.clean.contains_key(key) <==> record.clean_inclusion()
            &&& after.recovery.contains_key(key) <==> record.in_flight || {
                &&& record.target is None
                &&& record.rounds < m.max_rounds
                &&& record.transaction.valid_before is None || record.transaction.valid_before->0
                    > m.progress.target_timestamp_ms / 1000 + 3
                &&& {
                    ||| record.rounds > record.completed_round
                    ||| record.attempts.len() == 0 && record.rounds > 0
                    ||| record.attempts.len() > 0 && last.disposition == Disposition::Ambiguous
                    ||| record.attempts.len() > 0 && last.disposition == Disposition::Rejected && last.failure is Some
                        && failure.code == Some(-32003i64) && failure.data is Some && name is Some && (name->0
                        == "InsufficientFeeTokenBalanceError"@ || name->0 == "InsufficientAmmLiquidityError"@ || name->0
                        == "FeeTokenPausedError"@)
                }
            }
            &&& forall|other: Seq<u8>| other != key ==> {
                &&& (#[trigger] after.records.contains_key(other)) == at.records.contains_key(other)
                &&& after.records[other] == at.records[other]
                &&& after.pending.contains_key(other) == at.pending.contains_key(other)
                &&& after.clean.contains_key(other) == at.clean.contains_key(other)
                &&& after.recovery.contains_key(other) == at.recovery.contains_key(other)
            }
        }),
{
    consistency::lemma_record_written(at, m, record);
}

/// A sweep reads every entry of the index up to the source cursor, as long as there are fewer than ten
/// thousand, and no other entry.
proof fn lemma_read(m: EvidenceModel, id: OccurrenceId)
    requires
        m.consistent(),
        m.recovery_keys().len() < 10_000,
    ensures
        m.recovery_keys().contains(id.key_bytes()) <==> m.store.recovery.contains_key(id.key_bytes()) && id.source_height
            <= m.progress.source.height,
{
    let key = id.key_bytes();
    let end = OccurrenceId { source_height: m.progress.source.height, source_index: u32::MAX };
    table::lemma_finite_lists(m.store.recovery);
    table::lemma_in_range(m.store.recovery, Seq::empty(), end.key_bytes(), model::SWEEP as nat);
    state::law_keys_are_ordered(id, end);
    state::law_keys_are_ordered(end, id);
    state::law_keys_are_exact(id, end);
    assert(bytes::not_after(Seq::empty(), key)) by {
        state::lemma_key_len(id);
        assert(bytes::differ_at(Seq::empty(), key, 0));
    }
    if m.recovery_keys().contains(key) {
        let i = choose|i: int| 0 <= i < m.recovery_keys().len() && m.recovery_keys()[i] == key;
        assert(m.store.recovery.contains_key(m.recovery_keys()[i]));
    }
}

/// Recovery retries an occurrence of the index, up to the source cursor, if and only if a submission of
/// it is open, or it lies within the last 64 source blocks behind the cursor, is not on the target, has
/// rounds left, its window is open, its delivery is unknown or was rejected for what a later head can
/// lift, and such a rejection was made at a head that the target has left behind. An entry stays in the
/// index if and only if it is open, or within those blocks and still to be retried some time.
pub proof fn law_recovery_retries_the_last_sixty_four_blocks(m: EvidenceModel, id: OccurrenceId)
    requires
        m.consistent(),
        m.recovery_keys().len() < 10_000,
        m.store.recovery.contains_key(id.key_bytes()),
        id.source_height <= m.progress.source.height,
    ensures
        m.recover() is Ok,
        m.occurrence(id) is Some,
        ({
            let (commit, due) = m.recover()->Ok_0;
            let record = m.occurrence(id)->0;
            let last = record.attempts[record.attempts.len() - 1];
            let failure = last.failure->0;
            let name = foreign::json_text_member(failure.data->0, "name"@);
            let lifted = last.disposition == Disposition::Rejected && last.failure is Some && failure.code
                == Some(-32003i64) && failure.data is Some && name is Some && (name->0
                == "InsufficientFeeTokenBalanceError"@ || name->0 == "InsufficientAmmLiquidityError"@ || name->0
                == "FeeTokenPausedError"@);
            let wanted = {
                &&& id.source_height + 64 >= m.progress.source.height
                &&& record.target is None
                &&& record.rounds < m.max_rounds
                &&& record.transaction.valid_before is None || record.transaction.valid_before->0
                    > m.progress.target_timestamp_ms / 1000 + 3
                &&& {
                    ||| record.rounds > record.completed_round
                    ||| record.attempts.len() == 0 && record.rounds > 0
                    ||| record.attempts.len() > 0 && (last.disposition == Disposition::Ambiguous || lifted)
                }
            };
            let waits = record.rounds == record.completed_round && record.attempts.len() > 0 && last.disposition
                == Disposition::Rejected && m.progress.target.height <= record.target_at_dispatch.height;
            &&& due.contains(id) <==> record.in_flight || (wanted && !waits)
            &&& m.settle(commit).store.recovery.contains_key(id.key_bytes()) <==> record.in_flight || wanted
            &&& m.settle(commit).occurrence(id) == m.occurrence(id)
        }),
{
    let key = id.key_bytes();
    let keys = m.recovery_keys();
    lemma_read(m, id);
    retention_laws::law_a_consistent_store_has_no_index_errors(m, B256 { hi: 0, lo: 0 }, 0);
    round_laws::law_a_sweep_removes_what_is_stale(m, key);
    round_laws::law_a_recovery_sweep_keeps_every_record(m);
    state::law_keys_are_exact(id, id);
    assert(m.store.records.contains_key(key));
    let out = |i: int|
        if m.recovery_due(keys[i]) {
            seq![state::decoded(keys[i]).unwrap()]
        } else {
            Seq::empty()
        };
    let due = m.recover()->Ok_0.1;
    assert(due == fold::gathered(keys.len(), out));
    let at = choose|at: int| 0 <= at < keys.len() && keys[at] == key;
    if m.recovery_due(key) {
        assert(out(at)[0] == id);
        fold::lemma_gathered_holds(keys.len(), out, at, id);
    }
    if due.contains(id) {
        let j = fold::lemma_gathered_from(keys.len(), out, id);
        table::lemma_finite_lists(m.store.recovery);
        table::lemma_in_range(
            m.store.recovery,
            Seq::empty(),
            (OccurrenceId { source_height: m.progress.source.height, source_index: u32::MAX }).key_bytes(),
            model::SWEEP as nat,
        );
        assert(m.store.recovery.contains_key(keys[j]));
        assert(m.store.records.contains_key(keys[j]));
        state::lemma_key_len(m.store.records[keys[j]].id());
        state::law_decoding_keeps_the_key(keys[j]);
        let found = out(j);
        let k = choose|k: int| 0 <= k < found.len() && found[k] == id;
        assert(m.recovery_due(keys[j]));
    }
}

/// Recovery takes up nothing that is not in its index, and nothing above the source cursor; entries
/// above the cursor stay for later.
pub proof fn law_recovery_waits_for_the_cursor(m: EvidenceModel, id: OccurrenceId)
    requires
        m.consistent(),
        m.recovery_keys().len() < 10_000,
        !m.store.recovery.contains_key(id.key_bytes()) || id.source_height > m.progress.source.height,
    ensures
        m.recover() is Ok,
        !m.recover()->Ok_0.1.contains(id),
        m.settle(m.recover()->Ok_0.0).store.recovery.contains_key(id.key_bytes()) <==> m.store.recovery.contains_key(
            id.key_bytes(),
        ),
{
    let key = id.key_bytes();
    let keys = m.recovery_keys();
    lemma_read(m, id);
    retention_laws::law_a_consistent_store_has_no_index_errors(m, B256 { hi: 0, lo: 0 }, 0);
    let out = |i: int|
        if m.recovery_due(keys[i]) {
            seq![state::decoded(keys[i]).unwrap()]
        } else {
            Seq::empty()
        };
    let due = m.recover()->Ok_0.1;
    table::lemma_finite_lists(m.store.recovery);
    table::lemma_in_range(
        m.store.recovery,
        Seq::empty(),
        (OccurrenceId { source_height: m.progress.source.height, source_index: u32::MAX }).key_bytes(),
        model::SWEEP as nat,
    );
    if due.contains(id) {
        let j = fold::lemma_gathered_from(keys.len(), out, id);
        assert(m.store.recovery.contains_key(keys[j]));
        assert(m.store.records.contains_key(keys[j]));
        state::lemma_key_len(m.store.records[keys[j]].id());
        state::law_decoding_keeps_the_key(keys[j]);
        let found = out(j);
        let k = choose|k: int| 0 <= k < found.len() && found[k] == id;
        assert(keys.contains(keys[j]));
    }
    let part = |i: int|
        if m.recovery_stale(keys[i]) {
            seq![WriteModel::Recovery { key: keys[i], present: false }]
        } else {
            Seq::empty()
        };
    let holds = |at: StoreModel| at.recovery.contains_key(key) == m.store.recovery.contains_key(key);
    assert forall|i: int, at: StoreModel|
        0 <= i < keys.len() && #[trigger] holds(at) implies holds(#[trigger] at.write_all(part(i))) by {
        assert(keys.contains(keys[i]));
        if m.recovery_stale(keys[i]) {
            assert(part(i).drop_last() =~= Seq::empty());
            assert(at.write_all(part(i).drop_last()) == at);
        } else {
            assert(part(i) =~= Seq::empty());
            assert(at.write_all(part(i)) == at);
        }
    }
    consistency::lemma_kept(m.store, keys.len(), part, holds);
    assert(holds(m.store.write_all(fold::gathered(keys.len(), part))));
}

/// What recovery takes up comes in source order, each occurrence once.
pub proof fn law_recovery_goes_by_source_order(m: EvidenceModel, i: int, j: int)
    requires
        m.consistent(),
        m.recover() is Ok,
        0 <= i < j < m.recover()->Ok_0.1.len(),
    ensures
        ({
            let due = m.recover()->Ok_0.1;
            due[i].source_height < due[j].source_height || (due[i].source_height == due[j].source_height
                && due[i].source_index < due[j].source_index)
        }),
{
    let keys = m.recovery_keys();
    let out = |i: int|
        if m.recovery_due(keys[i]) {
            seq![state::decoded(keys[i]).unwrap()]
        } else {
            Seq::empty()
        };
    table::lemma_finite_lists(m.store.recovery);
    table::lemma_in_range(
        m.store.recovery,
        Seq::empty(),
        (OccurrenceId { source_height: m.progress.source.height, source_index: u32::MAX }).key_bytes(),
        model::SWEEP as nat,
    );
    assert forall|k: int| 0 <= k < keys.len() implies (#[trigger] keys[k]).len() == 12 by {
        assert(m.store.recovery.contains_key(keys[k]));
        assert(m.store.records.contains_key(keys[k]));
        state::lemma_key_len(m.store.records[keys[k]].id());
    }
    lemma_due_ascends(m, keys, keys.len(), out);
    let due = m.recover()->Ok_0.1;
    assert(due == fold::gathered(keys.len(), out));
    state::law_keys_are_ordered(due[i], due[j]);
}

proof fn lemma_due_ascends(m: EvidenceModel, keys: Seq<Seq<u8>>, n: nat, out: spec_fn(int) -> Seq<OccurrenceId>)
    requires
        n <= keys.len(),
        table::ascending(keys),
        forall|k: int| 0 <= k < keys.len() ==> (#[trigger] keys[k]).len() == 12,
        out == (|i: int|
            if m.recovery_due(keys[i]) {
                seq![state::decoded(keys[i]).unwrap()]
            } else {
                Seq::empty()
            }),
    ensures
        ({
            let due = fold::gathered(n, out);
            &&& forall|i: int, j: int| 0 <= i < j < due.len() ==> bytes::before(
                (#[trigger] due[i]).key_bytes(),
                (#[trigger] due[j]).key_bytes(),
            )
            &&& forall|i: int| 0 <= i < due.len() ==> exists|k: int| 0 <= k < n && (#[trigger] due[i]).key_bytes() == #[trigger] keys[k]
        }),
    decreases n,
{
    if n > 0 {
        let rest = fold::gathered((n - 1) as nat, out);
        let due = fold::gathered(n, out);
        lemma_due_ascends(m, keys, (n - 1) as nat, out);
        state::law_decoding_keeps_the_key(keys[n - 1]);
        assert forall|i: int, j: int| 0 <= i < j < due.len() implies bytes::before(
            (#[trigger] due[i]).key_bytes(),
            (#[trigger] due[j]).key_bytes(),
        ) by {
            assert(due[i] == rest[i]);
            if j < rest.len() {
                assert(due[j] == rest[j]);
            } else {
                let k = choose|k: int| 0 <= k < n - 1 && rest[i].key_bytes() == #[trigger] keys[k];
                assert(due[j] == out(n - 1)[0]);
            }
        }
        assert forall|i: int| 0 <= i < due.len() implies exists|k: int| 0 <= k < n && (#[trigger] due[i]).key_bytes() == #[trigger] keys[k] by {
            if i < rest.len() {
                assert(due[i] == rest[i]);
                let k = choose|k: int| 0 <= k < n - 1 && rest[i].key_bytes() == #[trigger] keys[k];
                assert(due[i].key_bytes() == keys[k]);
            } else {
                assert(due[i] == out(n - 1)[0]);
                assert(due[i].key_bytes() == keys[n - 1]);
            }
        }
    }
}

} // verus!
