use tempo_replay::evidence::{Completed, EvidenceStore};
use tempo_replay::inspect::{inspect, InspectError, Selection};
use tempo_replay::source::{Envelope, FinalizedBlock};
use tempo_replay::state::{Attempt, BlockCursor, Disposition, Finding, OccurrenceId, ReplayIdentity};
use tempo_replay::store::{DiskUsage, Store};
use tempo_replay::table::Table;
use tempo_replay::words::{Address, B256};

fn identity() -> ReplayIdentity {
    ReplayIdentity {
        chain_id: 4217,
        checkpoint_height: 10,
        source_hash: B256::repeat_byte(1),
        target_hash: B256::repeat_byte(2),
    }
}

fn filled() -> (EvidenceStore, OccurrenceId) {
    let mut store = EvidenceStore::open_at(Store::empty(), identity(), 3, u64::MAX, 0, 1).unwrap();
    let room = DiskUsage { used_bytes: 0, free_bytes: 1 };
    let cursor = BlockCursor { height: 11, hash: B256::repeat_byte(11) };
    let transaction = Envelope {
        raw: vec![1],
        hash: B256::repeat_byte(7),
        transaction_type: 0,
        is_system_tx: false,
        is_valid_system_tx: false,
        has_sub_block_nonce_key_prefix: false,
        signer: Some(Address::repeat_byte(1)),
        to: None,
        nonce: 0,
        nonce_key: None,
        is_expiring_nonce: false,
        gas_limit: 0,
        valid_before: None,
        valid_after: None,
    };
    let block = FinalizedBlock { cursor, timestamp_ms: 0, transactions: vec![transaction] };
    let ids = store.prepare_block_at(block, room, 1_000_000).unwrap();
    store.begin_round_at(ids.clone(), false, 1_000_001).unwrap();
    let attempt = Attempt {
        queued_at_ms: 1_000_001,
        target_observed: identity().target_cursor(),
        started_at_ms: 2_000_000,
        completed_at_ms: 2_000_005,
        disposition: Disposition::Accepted,
        failure: None,
    };
    store.complete_round(vec![Completed { id: ids[0], attempts: vec![attempt] }], Some(cursor)).unwrap();
    store.incident_at("early", "before".into(), false, 1_699_999);
    store.incident_at("near", "at the edge".into(), false, 1_700_000);
    store.incident_at("late", "at the other edge".into(), false, 2_300_000);
    store.incident_at("after", "too late".into(), false, 2_300_001);
    (store, ids[0])
}

fn by(tx: Option<B256>, source_block: Option<u64>, index: Option<u32>) -> Selection {
    Selection { tx, source_block, index }
}

#[test]
fn a_transaction_is_shown_with_its_finding_and_the_incidents_around_it() {
    let (store, id) = filled();
    let shown = inspect(&store, identity(), by(Some(B256::repeat_byte(7)), None, None), 2_100_000, 64, 120).unwrap();
    assert_eq!(shown.observed_at_ms, 2_100_000);
    assert_eq!(shown.progress, store.progress);
    assert_eq!(shown.records.len(), 1);
    assert_eq!(shown.records[0].occurrence, id);
    assert_eq!(shown.records[0].finding, Finding::MissingWithinWindow);
    let stages: Vec<&str> = shown.records[0].incidents.iter().map(|i| i.stage.as_str()).collect();
    assert_eq!(stages, vec!["near", "late"]);
    let later = inspect(&store, identity(), by(None, Some(11), Some(0)), 2_120_005, 64, 120).unwrap();
    assert_eq!(later.records[0].finding, Finding::MissingAfterWindow);
    assert_eq!(later.records[0].evidence, store.occurrence(id).unwrap());
}

#[test]
fn nothing_is_shown_for_what_is_not_there() {
    let (store, _) = filled();
    let empty = |selection: Selection| inspect(&store, identity(), selection, 0, 64, 120).unwrap().records.is_empty();
    assert!(empty(by(Some(B256::repeat_byte(8)), None, None)));
    assert!(empty(by(None, Some(11), Some(1))));
    assert!(empty(by(None, Some(11), None)));
}

#[test]
fn inspection_refuses_an_empty_selection_and_another_replay() {
    let (store, _) = filled();
    let refused = inspect(&store, identity(), by(None, None, Some(3)), 0, 64, 120).err().unwrap();
    assert_eq!(refused, InspectError::NothingSelected);
    assert_eq!(refused.message(), "provide --tx or --source-block/--index");
    let mut other = identity();
    other.chain_id = 1;
    let refused = inspect(&store, other, by(None, Some(11), Some(0)), 0, 64, 120).err().unwrap();
    assert_eq!(refused, InspectError::OtherReplay);
}

#[test]
fn tables_list_their_keys_in_order() {
    let mut table: Table<()> = Table::new();
    for key in [vec![2u8, 1], vec![1], vec![2], vec![2, 1, 0], vec![3]] {
        table.put(key, ());
    }
    assert_eq!(table.all_keys(), vec![vec![1], vec![2], vec![2, 1], vec![2, 1, 0], vec![3]]);
    assert_eq!(table.prefix_keys(&[2], 2), vec![vec![2], vec![2, 1]]);
    assert_eq!(table.range_keys(&[2], &[2, 1], 9), vec![vec![2], vec![2, 1]]);
    table.delete(&[2]);
    table.delete(&[9]);
    assert!(table.get(&[2]).is_none() && table.get(&[2, 1]).is_some());
    assert_eq!(table.prefix_keys(&[], 10).len(), 4);
}
