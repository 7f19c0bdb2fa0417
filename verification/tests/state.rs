use tempo_replay::state::{Disposition, OccurrenceId, RpcFailure};
use tempo_replay::store::{bounded_error, MAX_ERROR_CHARS};
use tempo_replay::words::{Address, B256, U256};
use tempo_replay::{clamp_millis, now_ms};

#[test]
fn occurrence_keys_are_ordered_and_exact() {
    let first = OccurrenceId { source_height: 9, source_index: 4 };
    let second = OccurrenceId { source_height: 10, source_index: 0 };
    assert!(first.key() < second.key());
    assert_eq!(OccurrenceId::decode(&first.key()), Some(first));
    assert!(OccurrenceId::decode(&first.key()[..11]).is_none());
    assert!(OccurrenceId::decode(&[0; 13]).is_none());
}

#[test]
fn recovery_requires_a_known_structured_reason() {
    let mut error = RpcFailure { code: Some(-32003), message: "insufficient balance".into(), data: None };
    assert!(!error.retry_after_head());
    error.data = Some(r#"{"name":"InsufficientFeeTokenBalanceError"}"#.into());
    assert!(error.retry_after_head());
    error.data = Some(r#"{"name":"ExpiredError"}"#.into());
    assert!(!error.retry_after_head());
    error.data = Some("truncated".into());
    assert!(!error.retry_after_head());
    error.data = Some(r#"{"name":"InvalidValidBeforeError","validBefore":10}"#.into());
    assert!(!error.retry_after_head());
    assert!(error.expired_at_admission());
    error.code = Some(-32000);
    assert!(!error.expired_at_admission());
}

#[test]
fn structured_names_are_read_from_the_json_text() {
    let mut error = RpcFailure {
        code: Some(-32003),
        message: String::new(),
        data: Some(r#"{"other":1,"name":"FeeTokenPausedError"}"#.into()),
    };
    assert_eq!(error.structured_name().as_deref(), Some("FeeTokenPausedError"));
    assert!(error.retry_after_head());
    error.data = Some(r#"{"name":"InsufficientAmmLiquidityError"}"#.into());
    assert!(error.retry_after_head());
    error.data = Some(r#"{"name":7}"#.into());
    assert_eq!(error.structured_name(), None);
    error.data = Some(r#"["name"]"#.into());
    assert_eq!(error.structured_name(), None);
}

#[test]
fn keys_spell_height_and_index() {
    let id = OccurrenceId { source_height: 0x0102030405060708, source_index: 0x090a0b0c };
    assert_eq!(id.key(), [1, 2, 3, 4, 5, 6, 7, 8, 9, 10, 11, 12]);
    let hash = B256::repeat_byte(0xaa);
    let key = tempo_replay::state::tx_index_key(hash, id);
    assert_eq!(&key[..32], &[0xaa; 32]);
    assert_eq!(&key[32..], &id.key());
    assert!(matches!(Disposition::Accepted, Disposition::Accepted));
}

#[test]
fn words_keep_their_bytes() {
    let mut bytes = [0u8; 32];
    for (i, byte) in bytes.iter_mut().enumerate() {
        *byte = i as u8;
    }
    assert_eq!(B256::from_bytes(&bytes).to_array(), bytes);
    assert_eq!(U256::from_bytes(&bytes).to_vec(), bytes.to_vec());
    let mut short = [0u8; 20];
    short.copy_from_slice(&bytes[5..25]);
    assert_eq!(Address::from_bytes(&short).to_array(), short);
}

#[test]
fn long_errors_are_cut_by_characters() {
    let long: String = "é".repeat(MAX_ERROR_CHARS + 1);
    let kept = bounded_error(long);
    assert_eq!(kept.chars().count(), MAX_ERROR_CHARS);
    assert_eq!(bounded_error(kept.clone()), kept);
    assert_eq!(bounded_error("short".into()), "short");
}

#[test]
fn the_clock_reads_in_milliseconds() {
    assert_eq!(clamp_millis(None), 0);
    assert_eq!(clamp_millis(Some(1_700_000_000_000)), 1_700_000_000_000);
    assert_eq!(clamp_millis(Some(u128::MAX)), u64::MAX);
    let first = now_ms();
    let direct = std::time::SystemTime::now().duration_since(std::time::UNIX_EPOCH).unwrap().as_millis() as u64;
    assert!(first <= direct && direct - first < 60_000);
}
