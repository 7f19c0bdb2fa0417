use tempo_replay::source::{
    accept_block, bearer_header, check_checkpoint, compare_block, history_failure, replayable, shadow_config,
    transaction_root, BearerError, Envelope, EpochOverflow, FailureKind, FetchedBlock, FinalizedHeader, HistoryError,
    ReplayMetadata, SignerError, StreamFailure, TxMetadata,
};
use tempo_replay::state::BlockCursor;
use tempo_replay::words::{Address, B256, U256};

fn envelope() -> Envelope {
    Envelope {
        raw: vec![2, 3, 4],
        hash: B256::repeat_byte(7),
        transaction_type: 2,
        is_system_tx: false,
        is_valid_system_tx: false,
        has_sub_block_nonce_key_prefix: false,
        signer: Some(Address::repeat_byte(1)),
        to: None,
        nonce: 5,
        nonce_key: None,
        is_expiring_nonce: false,
        gas_limit: 21_000,
        valid_before: Some(9),
        valid_after: Some(3),
    }
}

fn empty_root() -> B256 {
    B256::from_bytes(&[
        0x56, 0xe8, 0x1f, 0x17, 0x1b, 0xcc, 0x55, 0xa6, 0xff, 0x83, 0x45, 0xe6, 0x92, 0xc0, 0xf8, 0x6e, 0x5b, 0x48,
        0xe0, 0x1b, 0x99, 0x6c, 0xad, 0xc0, 0x01, 0x62, 0x2f, 0xb5, 0xe3, 0x63, 0xb4, 0x21,
    ])
}

#[test]
fn shadow_finality_uses_the_patched_epoch_schedule_and_pinned_private_history() {
    let start = B256::repeat_byte(1);
    let identity = "private committee";
    let config = shadow_config(start, 120_000, identity).unwrap();
    assert_eq!(config.start_after, start);
    assert_eq!(config.epoch_length, 120_001);
    assert_eq!(config.network_identity, Some(identity));
    assert_eq!(shadow_config(start, u64::MAX, identity), Err(EpochOverflow));
    assert!(history_failure(FailureKind::History));
    assert!(!history_failure(FailureKind::Other));
}

#[test]
fn replay_filter_uses_native_system_and_subblock_classification() {
    let mut system = envelope();
    system.is_system_tx = true;
    assert!(!replayable(&system));
    let regular = envelope();
    let encoded = regular.raw.clone();
    assert!(replayable(&regular));
    assert_eq!(regular.raw, encoded);
    let mut subblock = envelope();
    let mut key = [0; 32];
    key[0] = 0x5b;
    subblock.nonce_key = Some(U256::from_bytes(&key));
    subblock.has_sub_block_nonce_key_prefix = true;
    assert!(!replayable(&subblock));
}

#[test]
fn transactions_are_classified_with_their_shared_fields() {
    let regular = envelope();
    let metadata = match TxMetadata::from_envelope(&regular) {
        Ok(TxMetadata::Replayable(metadata)) => metadata,
        other => panic!("{other:?}"),
    };
    assert_eq!(
        metadata,
        ReplayMetadata {
            hash: regular.hash,
            transaction_type: 2,
            sender: Address::repeat_byte(1),
            nonce: 5,
            nonce_key: U256 { hi: 0, lo: 0 },
            expiring: false,
            encoded_length: 3,
            gas_limit: 21_000,
            valid_before: Some(9),
            valid_after: Some(3),
        }
    );
    let mut unsigned = envelope();
    unsigned.signer = None;
    assert_eq!(TxMetadata::from_envelope(&unsigned), Err(SignerError));
    unsigned.is_system_tx = true;
    assert_eq!(TxMetadata::from_envelope(&unsigned), Ok(TxMetadata::System));
    let mut subblock = envelope();
    subblock.has_sub_block_nonce_key_prefix = true;
    assert_eq!(TxMetadata::from_envelope(&subblock), Ok(TxMetadata::Subblock(metadata)));
}

#[test]
fn only_inconsistent_streams_are_history_failures() {
    assert!(history_failure(FailureKind::Stream(StreamFailure::Inconsistent)));
    assert!(!history_failure(FailureKind::Stream(StreamFailure::Rpc)));
    assert!(!history_failure(FailureKind::Stream(StreamFailure::MissingHeader)));
    assert!(!history_failure(FailureKind::Stream(StreamFailure::MissingTransitionCertificate)));
}

#[test]
fn fetched_blocks_must_agree_with_the_authenticated_header() {
    let hash = B256::repeat_byte(3);
    let header = FinalizedHeader { number: 12, hash, timestamp_ms: 99, transactions_root: empty_root() };
    let fetched = |hash: B256, header_agrees: bool, transactions: Vec<Envelope>| FetchedBlock {
        hash,
        header_agrees,
        transactions,
    };
    let accepted = accept_block(&header, fetched(hash, true, vec![])).unwrap();
    assert_eq!(accepted.cursor, BlockCursor { height: 12, hash });
    assert_eq!(accepted.timestamp_ms, 99);
    assert!(accepted.transactions.is_empty());
    assert_eq!(
        accept_block(&header, fetched(B256::repeat_byte(4), true, vec![])).err(),
        Some(HistoryError("RPC block hash disagrees with authenticated finalized header"))
    );
    assert_eq!(
        accept_block(&header, fetched(hash, false, vec![])).err(),
        Some(HistoryError("RPC block header disagrees with authenticated finalized header"))
    );
    assert_eq!(
        accept_block(&header, fetched(hash, true, vec![envelope()])).err(),
        Some(HistoryError("RPC transaction body disagrees with authenticated finalized header"))
    );
    assert_eq!(compare_block(&header, hash, true, empty_root()), Ok(()));
}

#[test]
fn transaction_roots_cover_content_and_order() {
    assert_eq!(transaction_root(&vec![]), empty_root());
    let mut other = envelope();
    other.raw = vec![9];
    let forward = transaction_root(&vec![envelope(), other.clone()]);
    let backward = transaction_root(&vec![other, envelope()]);
    assert_ne!(forward, backward);
    assert_ne!(transaction_root(&vec![envelope()]), empty_root());
}

#[test]
fn the_checkpoint_header_must_be_the_configured_one() {
    let checkpoint = BlockCursor { height: 10, hash: B256::repeat_byte(2) };
    assert_eq!(check_checkpoint(checkpoint, checkpoint), Ok(()));
    let other = BlockCursor { height: 11, hash: checkpoint.hash };
    assert_eq!(
        check_checkpoint(other, checkpoint),
        Err(HistoryError("shadow checkpoint header disagrees with the configured checkpoint"))
    );
}

#[test]
fn bearer_tokens_become_headers() {
    assert_eq!(bearer_header("secret-1"), Ok("Bearer secret-1".to_string()));
    assert_eq!(bearer_header("tab\tand é"), Ok("Bearer tab\tand é".to_string()));
    assert_eq!(bearer_header(""), Err(BearerError::Empty));
    assert_eq!(bearer_header("line\nbreak"), Err(BearerError::Invalid));
    assert_eq!(bearer_header("delete\u{7f}"), Err(BearerError::Invalid));
}
