use tempo_replay::command::{
    check_block, check_chain, ensure_end, ensure_resumable, profile_start, temporary_name, CommandError,
    EndpointMismatch,
};
use tempo_replay::config::{
    millis, Checkpoint, Config, ConfigError, Endpoint, EndpointError, Run, StoreConfig,
};
use tempo_replay::evidence::Progress;
use tempo_replay::service::finished;
use tempo_replay::words::B256;

fn run() -> Run {
    Run {
        store: StoreConfig { state: "replay".into(), max_bytes: None, min_free_bytes: None },
        metrics: None,
        concurrency: None,
        retries: None,
        retry_delay_ms: None,
        max_rounds: None,
        retain_included_blocks: None,
        missing_after_blocks: None,
        missing_after_seconds: None,
        finality_stall_seconds: None,
    }
}

fn endpoint(url: &str) -> Endpoint {
    Endpoint { url: url.into(), credential_env: None, ca_file: None }
}

fn config() -> Config {
    Config {
        chain_id: 4217,
        source: endpoint("https://source.example"),
        target: Some(endpoint("https://target.example")),
        checkpoint: Some(Checkpoint {
            height: 10,
            source_hash: B256::repeat_byte(1),
            target_hash: B256::repeat_byte(2),
        }),
        run: Some(run()),
    }
}

#[test]
fn example_config_uses_one_store_and_bounded_settings() {
    let config = config();
    let (_, _, run) = config.run().unwrap();
    assert_eq!(run.concurrency(), 64);
    assert_eq!(run.max_rounds(), 3);
    assert_eq!(run.missing_after_blocks(), 64);
}

#[test]
fn omitted_tuning_has_bounded_defaults() {
    let run = run();
    assert_eq!(run.concurrency(), 64);
    assert_eq!(run.retries(), 2);
    assert_eq!(run.retry_delay_ms(), 250);
    assert_eq!(run.missing_after(), 120);
    assert_eq!(run.retain_included_blocks(), 10_000);
    assert_eq!(run.finality_stall(), 30);
    assert_eq!(run.store.max_bytes(), 50 * 1024 * 1024 * 1024);
    assert_eq!(run.store.min_free_bytes(), 5 * 1024 * 1024 * 1024);
}

#[test]
fn rejects_unbounded_retry_configuration_and_legacy_audit_section() {
    let mut config = config();
    config.run.as_mut().unwrap().max_rounds = Some(9);
    assert_eq!(config.run().err(), Some(ConfigError::UnboundedRetries));
    config.run.as_mut().unwrap().max_rounds = Some(8);
    config.run.as_mut().unwrap().retries = Some(4);
    assert!(config.run().is_ok());
    config.run.as_mut().unwrap().retries = Some(5);
    assert_eq!(config.run().err(), Some(ConfigError::UnboundedRetries));
}

#[test]
fn endpoint_rejects_insecure_or_embedded_credentials() {
    assert!(endpoint("http://source.example").check().is_err());
    assert!(endpoint("https://user@source.example").check().is_err());
    assert!(endpoint("https://source.example?token=secret").check().is_err());
}

#[test]
fn profile_only_config_does_not_require_a_target() {
    let mut config = config();
    config.target = None;
    config.checkpoint = None;
    config.run = None;
    assert!(config.run().is_err());
    assert_eq!(config.check(), Ok(()));
}

#[test]
fn endpoints_are_checked_by_their_parts() {
    assert_eq!(endpoint("https://source.example/path").check(), Ok(()));
    assert_eq!(endpoint("HTTPS://source.example").check(), Ok(()));
    assert_eq!(endpoint("not a url").check(), Err(EndpointError::InvalidUrl));
    assert_eq!(endpoint("http://source.example").check(), Err(EndpointError::NotHttps));
    assert_eq!(endpoint("https://:pass@source.example").check(), Err(EndpointError::EmbeddedParts));
    assert_eq!(endpoint("https://source.example#part").check(), Err(EndpointError::EmbeddedParts));
    assert_eq!(
        EndpointError::EmbeddedParts.message(),
        "RPC URL cannot embed credentials, query parameters, or fragments"
    );
}

#[test]
fn every_setting_of_a_run_is_checked() {
    let with = |change: fn(&mut Run)| {
        let mut config = config();
        change(config.run.as_mut().unwrap());
        config.run().err()
    };
    assert_eq!(with(|run| run.concurrency = Some(0)), Some(ConfigError::NoConcurrency));
    assert_eq!(with(|run| run.max_rounds = Some(0)), Some(ConfigError::UnboundedRetries));
    assert_eq!(with(|run| run.retry_delay_ms = Some(60_001)), Some(ConfigError::LongRetryDelay));
    assert_eq!(with(|run| run.store.max_bytes = Some(0)), Some(ConfigError::NoDatabaseLimit));
    assert_eq!(with(|run| run.missing_after_blocks = Some(0)), None);
    let horizon = with(|run| {
        run.missing_after_blocks = Some(0);
        run.missing_after_seconds = Some(0);
    });
    assert_eq!(horizon, Some(ConfigError::NoMissingHorizon));
    let mut config = config();
    config.checkpoint.as_mut().unwrap().target_hash = B256::repeat_byte(1);
    assert_eq!(config.run().err(), Some(ConfigError::SameCheckpointHash));
    config.run = None;
    assert_eq!(config.run().err(), Some(ConfigError::NoRun));
    config.checkpoint = None;
    assert_eq!(config.run().err(), Some(ConfigError::NoCheckpoint));
    config.target = None;
    assert_eq!(config.run().err().map(|e| e.message()), Some("run requires [target]"));
    config.chain_id = 0;
    assert_eq!(config.check(), Err(ConfigError::NoChainId));
}

#[test]
fn checkpoints_identify_the_replay() {
    let identity = config().checkpoint.unwrap().identity(4217);
    assert_eq!((identity.chain_id, identity.checkpoint_height), (4217, 10));
    assert_eq!(identity.source_cursor().hash, B256::repeat_byte(1));
    assert_eq!(identity.target_cursor().hash, B256::repeat_byte(2));
}

#[test]
fn milliseconds_wrap_at_their_width() {
    assert_eq!(millis(120), 120_000);
    assert_eq!(millis(u64::MAX), u64::MAX.wrapping_mul(1000));
}

#[test]
fn commands_are_checked_before_they_run() {
    assert_eq!(ensure_end(None, 10), Ok(()));
    assert_eq!(ensure_end(Some(11), 10), Ok(()));
    assert_eq!(ensure_end(Some(10), 10), Err(CommandError::EndBeforeCheckpoint));
    assert_eq!(ensure_resumable(Some(10), 10), Ok(()));
    assert_eq!(ensure_resumable(Some(9), 10), Err(CommandError::EndBeforeCursor));
    assert_eq!(profile_start(5, 5), Ok(4));
    assert_eq!(profile_start(0, 5), Err(CommandError::ProfileRange));
    assert_eq!(profile_start(6, 5), Err(CommandError::ProfileRange));
    assert_eq!(check_chain(1, 2), Err(EndpointMismatch::ChainId));
    assert_eq!(check_chain(2, 2), Ok(()));
    assert_eq!(check_block(B256::repeat_byte(1), B256::repeat_byte(2)), Err(EndpointMismatch::CheckpointHash));
    assert_eq!(check_block(B256::repeat_byte(1), B256::repeat_byte(1)), Ok(()));
    assert_eq!(CommandError::ProfileRange.message(), "invalid profile range; start after a checkpoint block");
}

#[test]
fn reports_are_written_beside_their_place() {
    assert_eq!(temporary_name(Some("profile.json"), 40), ".profile.json.tmp-40");
    assert_eq!(temporary_name(None, 1234567890), ".report.tmp-1234567890");
    assert_eq!(temporary_name(None, 0), ".report.tmp-0");
}

#[test]
fn the_service_finishes_when_nothing_can_still_come() {
    let mut progress = Progress::default();
    progress.source.height = 20;
    progress.source_receipts.height = 20;
    progress.target.height = 100;
    progress.last_dispatch_target.height = 90;
    progress.last_dispatch_ms = 1_000;
    assert!(!finished(&progress, false, None, 0, 120, 64));
    assert!(finished(&progress, false, Some(20), 0, 120, 64));
    assert!(!finished(&progress, true, Some(20), 120_999, 120, 64));
    assert!(finished(&progress, true, Some(20), 121_000, 120, 64));
    assert!(finished(&progress, true, Some(20), 0, 120, 10));
    assert!(!finished(&progress, true, Some(20), u64::MAX, 0, 0));
    progress.source_receipts.height = 19;
    assert!(!finished(&progress, false, Some(20), 0, 120, 64));
}
