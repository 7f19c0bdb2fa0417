use tempo_replay::evidence::EvidenceStore;
use tempo_replay::observe::{
    check_receipts, follows, observe_block_at, receipt_summary, system_failure, system_invariant_failures,
    system_invariant_failures_at, target_text, Episode, Receipt, ReceiptError, RpcLog, SystemRules,
};
use tempo_replay::source::{Envelope, FinalizedBlock};
use tempo_replay::state::{BlockCursor, ReceiptSummary, ReplayIdentity};
use tempo_replay::store::{DiskUsage, Store};
use tempo_replay::words::{Address, B256};

fn word(text: &str) -> B256 {
    let mut bytes = [0u8; 32];
    for (i, byte) in bytes.iter_mut().enumerate() {
        *byte = u8::from_str_radix(&text[2 * i..2 * i + 2], 16).unwrap();
    }
    B256::from_bytes(&bytes)
}

fn account(text: &str) -> Address {
    let mut bytes = [0u8; 20];
    for (i, byte) in bytes.iter_mut().enumerate() {
        *byte = u8::from_str_radix(&text[2 * i..2 * i + 2], 16).unwrap();
    }
    Address::from_bytes(&bytes)
}

fn receipt(block_byte: u8, block_number: u64) -> Receipt {
    let block_hash = B256::repeat_byte(block_byte);
    Receipt {
        transaction_hash: B256::repeat_byte(0x33),
        block_hash: Some(block_hash),
        block_number: Some(block_number),
        transaction_index: Some(1),
        status: true,
        gas_used: 0x5208,
        logs: vec![RpcLog {
            address: Address::repeat_byte(0x11),
            topics: vec![B256::repeat_byte(0x22)],
            data: vec![1, 2, 3],
            block_hash: Some(block_hash),
            block_number: Some(block_number),
            block_timestamp: Some(0x1234),
            transaction_hash: Some(B256::repeat_byte(0x33)),
            transaction_index: Some(1),
            log_index: Some(2),
            removed: false,
        }],
    }
}

fn envelope(byte: u8, system: bool, valid: bool, to: Option<Address>) -> Envelope {
    Envelope {
        raw: vec![byte],
        hash: B256::repeat_byte(byte),
        transaction_type: 0,
        is_system_tx: system,
        is_valid_system_tx: valid,
        has_sub_block_nonce_key_prefix: false,
        signer: Some(Address::repeat_byte(1)),
        to,
        nonce: 0,
        nonce_key: None,
        is_expiring_nonce: false,
        gas_limit: 0,
        valid_before: None,
        valid_after: None,
    }
}

fn summary(status: bool) -> ReceiptSummary {
    ReceiptSummary { status, gas_used: 7, logs_hash: B256::repeat_byte(0) }
}

const CHECKSUMMED: &str = "5aAeb6053F3E94C9b9A09f33669435E7Ef1BeAed";

fn rules() -> SystemRules {
    SystemRules { count: 1, addresses: vec![account(CHECKSUMMED)] }
}

#[test]
fn system_invariants_follow_the_hardfork_schedule() {
    assert!(!system_invariant_failures(&vec![], &rules(), false).is_empty());
    assert!(system_invariant_failures(&vec![], &rules(), true).is_empty());
}

#[test]
fn receipt_log_hash_ignores_rpc_location_metadata() {
    let source = receipt(0xaa, 10);
    let target = receipt(0xbb, 11);
    assert_ne!(source.logs, target.logs);
    assert_eq!(receipt_summary(&source), receipt_summary(&target));
}

#[test]
fn receipt_log_hash_covers_address_topics_and_data() {
    let base = receipt_summary(&receipt(0xaa, 10));
    let mut moved = receipt(0xaa, 10);
    moved.logs[0].address = Address::repeat_byte(0x12);
    assert_ne!(receipt_summary(&moved), base);
    let mut retold = receipt(0xaa, 10);
    retold.logs[0].topics.push(B256::repeat_byte(1));
    assert_ne!(receipt_summary(&retold), base);
    let mut changed = receipt(0xaa, 10);
    changed.logs[0].data.push(4);
    assert_ne!(receipt_summary(&changed), base);
    let mut silent = receipt(0xaa, 10);
    silent.logs.clear();
    // The hash of an empty list.
    assert_eq!(
        receipt_summary(&silent).logs_hash,
        word("1dcc4de8dec75d7aab85b567b6ccd41ad312451b948a7413f0a142fd40d49347")
    );
}

#[test]
fn receipts_must_be_those_of_the_block() {
    let cursor = BlockCursor { height: 10, hash: B256::repeat_byte(0xaa) };
    let mut first = receipt(0xaa, 10);
    first.transaction_index = Some(0);
    let hashes = vec![first.transaction_hash];
    assert_eq!(check_receipts(cursor, &hashes, &vec![first.clone()]), Ok(vec![receipt_summary(&first)]));
    assert_eq!(check_receipts(cursor, &hashes, &vec![]), Err(ReceiptError::CountMismatch));
    let wrong = Err(ReceiptError::IdentityMismatch { height: 10, index: 0 });
    assert_eq!(check_receipts(cursor, &hashes, &vec![receipt(0xaa, 10)]), wrong);
    let mut forked = first.clone();
    forked.block_hash = Some(B256::repeat_byte(0xbb));
    assert_eq!(check_receipts(cursor, &hashes, &vec![forked]), wrong);
    let mut unplaced = first.clone();
    unplaced.block_number = None;
    assert_eq!(check_receipts(cursor, &hashes, &vec![unplaced]), wrong);
    let mut other = first.clone();
    other.transaction_hash = B256::repeat_byte(0x34);
    assert_eq!(check_receipts(cursor, &hashes, &vec![other]), wrong);
}

#[test]
fn system_failures_say_what_is_wrong() {
    let to = account("5aAeb6053F3E94C9b9A09f33669435E7Ef1BeAee");
    let found = system_invariant_failures_at(
        &vec![envelope(0xcd, true, false, None), envelope(2, false, false, Some(to))],
        &rules(),
        false,
        42,
    );
    let said: Vec<&str> = found.iter().map(|i| i.message.as_str()).collect();
    assert_eq!(
        said,
        vec![
            format!("invalid system transaction 0x{}", "cd".repeat(32)).as_str(),
            format!(
                "end-of-block system transaction has target Some(0x{}), expected 0x{}",
                "5aaeb6053f3e94c9b9a09f33669435e7ef1beaee", CHECKSUMMED
            )
            .as_str(),
        ]
    );
    assert!(found.iter().all(|i| i.observed_at_ms == 42 && i.stage == "system_execution" && !i.history_failure));
    let right = envelope(1, true, true, Some(account(CHECKSUMMED)));
    assert!(system_invariant_failures_at(&vec![right.clone()], &rules(), false, 0).is_empty());
    let late = system_invariant_failures_at(&vec![right], &rules(), true, 0);
    assert_eq!(late.len(), 1);
    assert_eq!(late[0].message, "expected 0 system transactions, observed 1");
    let none = system_invariant_failures_at(&vec![envelope(1, true, true, None)], &rules(), false, 0);
    assert_eq!(
        none[0].message,
        format!("end-of-block system transaction has target None, expected 0x{CHECKSUMMED}")
    );
}

#[test]
fn system_failures_are_made_now() {
    let before = tempo_replay::now_ms();
    let failure = system_failure("broken".into());
    assert!(failure.observed_at_ms >= before);
    assert_eq!((failure.stage.as_str(), failure.message.as_str()), ("system_execution", "broken"));
}

#[test]
fn target_blocks_are_read_with_their_receipts() {
    let cursor = BlockCursor { height: 120, hash: B256::repeat_byte(9) };
    let mut subblock = envelope(3, false, false, None);
    subblock.has_sub_block_nonce_key_prefix = true;
    let block = FinalizedBlock {
        cursor,
        timestamp_ms: 5,
        transactions: vec![envelope(1, false, false, None), subblock, envelope(2, false, false, None)],
    };
    let receipts = vec![summary(true), summary(false), summary(false)];
    let seen = observe_block_at(&block, &receipts, &rules(), true, 77).unwrap();
    assert_eq!(seen.system_txs, 1);
    let places: Vec<(B256, u32, bool)> =
        seen.observations.iter().map(|o| (o.transaction_hash, o.location.index, o.receipt.status)).collect();
    assert_eq!(places, vec![(B256::repeat_byte(1), 0, true), (B256::repeat_byte(2), 2, false)]);
    assert!(seen.observations.iter().all(|o| o.location.block == cursor && o.location.timestamp_ms == 5));
    assert_eq!(seen.failures.len(), 1);
    assert_eq!(
        seen.failures[0].message,
        format!("system/subblock transaction 0x{} reverted at 120:1", "03".repeat(32))
    );
    let partial = observe_block_at(&block, &vec![summary(true)], &rules(), true, 77).unwrap();
    assert_eq!((partial.observations.len(), partial.system_txs), (1, 0));
}

#[test]
fn one_incident_per_outage() {
    let mut episode = Episode::default();
    assert!(episode.failure(false));
    assert!(!episode.failure(false));
    assert!(episode.failure(true));
    episode.success();
    assert!(episode.failure(false));
}

#[test]
fn target_headers_follow_one_another() {
    let previous = BlockCursor { height: 4, hash: B256::repeat_byte(4) };
    assert!(follows(previous, 5, previous.hash));
    assert!(!follows(previous, 6, previous.hash));
    assert!(!follows(previous, 5, B256::repeat_byte(5)));
}

#[test]
fn receipt_outage_does_not_gate_dispatch_or_lose_the_receipt_cursor() {
    let identity = ReplayIdentity {
        chain_id: 4217,
        checkpoint_height: 10,
        source_hash: B256::repeat_byte(1),
        target_hash: B256::repeat_byte(2),
    };
    let mut store = EvidenceStore::open(Store::empty(), identity, 3, u64::MAX, 0).unwrap();
    let cursor = BlockCursor { height: 11, hash: B256::repeat_byte(3) };
    let room = DiskUsage { used_bytes: 0, free_bytes: 1 };
    store.prepare_block(FinalizedBlock { cursor, timestamp_ms: 11_000, transactions: Vec::new() }, room).unwrap();
    let mut episode = Episode::default();
    for _ in 0..3 {
        if episode.failure(false) {
            store.incident("source_receipts", "receipt RPC temporarily unavailable".into(), false);
        }
    }
    assert_eq!(store.progress.observation_failures, 1);
    // Source dispatch can commit while the independent receipt worker is retrying.
    store.complete_round(Vec::new(), Some(cursor)).unwrap();
    assert_eq!(store.progress.source, cursor);
    assert_eq!(store.progress.source_receipts.height, 10);
    let block = store.source_block(11).unwrap();
    let receipts = check_receipts(block.cursor, &block.hashes, &Vec::new()).unwrap();
    store.source_receipts(block, receipts).unwrap();
    episode.success();
    assert_eq!(store.progress.source_receipts, cursor);
    assert_eq!(store.progress.observation_failures, 1);
}

#[test]
fn a_wrong_target_is_said_with_the_wanted_one() {
    assert_eq!(
        target_text(Some(Address::repeat_byte(0xab)), "0xAb"),
        format!("end-of-block system transaction has target Some(0x{}), expected 0xAb", "ab".repeat(20))
    );
    assert_eq!(target_text(None, ""), "end-of-block system transaction has target None, expected ");
}
