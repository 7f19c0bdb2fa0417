//! Shared endpoint/checkpoint configuration and bounded single-service settings.

use crate::evidence::model;
use crate::foreign;
use crate::foreign::UrlParts;
use crate::state::ReplayIdentity;
use crate::words::B256;
use vstd::prelude::*;
use vstd::string::StrSliceExecFns;

verus! {

/// The settings of the service.
#[derive(Clone, Debug)]
pub struct Config {
    pub chain_id: u64,
    pub source: Endpoint,
    pub target: Option<Endpoint>,
    pub checkpoint: Option<Checkpoint>,
    pub run: Option<Run>,
}

/// Why settings were refused.
#[derive(Clone, Copy, Debug, PartialEq, Eq, Structural)]
pub enum ConfigError {
    NoChainId,
    NoTarget,
    NoCheckpoint,
    NoRun,
    NoConcurrency,
    UnboundedRetries,
    LongRetryDelay,
    NoDatabaseLimit,
    NoMissingHorizon,
    SameCheckpointHash,
}

impl ConfigError {
    /// What the error says.
    pub open spec fn text(self) -> Seq<char> {
        match self {
            ConfigError::NoChainId => "chain id must be positive"@,
            ConfigError::NoTarget => "run requires [target]"@,
            ConfigError::NoCheckpoint => "run requires [checkpoint]"@,
            ConfigError::NoRun => "run requires [run]"@,
            ConfigError::NoConcurrency => "concurrency must be positive"@,
            ConfigError::UnboundedRetries => "retries must be <= 4 and max_rounds in 1..=8"@,
            ConfigError::LongRetryDelay => "retry_delay_ms must be <= 60000"@,
            ConfigError::NoDatabaseLimit => "database limit must be positive"@,
            ConfigError::NoMissingHorizon => "missing horizon must be positive"@,
            ConfigError::SameCheckpointHash => "source and patched target checkpoint hashes must differ"@,
        }
    }

    /// What the error says.
    pub fn message(&self) -> (r: &'static str)
        ensures
            r@ == self.text(),
    {
        match self {
            ConfigError::NoChainId => "chain id must be positive",
            ConfigError::NoTarget => "run requires [target]",
            ConfigError::NoCheckpoint => "run requires [checkpoint]",
            ConfigError::NoRun => "run requires [run]",
            ConfigError::NoConcurrency => "concurrency must be positive",
            ConfigError::UnboundedRetries => "retries must be <= 4 and max_rounds in 1..=8",
            ConfigError::LongRetryDelay => "retry_delay_ms must be <= 60000",
            ConfigError::NoDatabaseLimit => "database limit must be positive",
            ConfigError::NoMissingHorizon => "missing horizon must be positive",
            ConfigError::SameCheckpointHash => "source and patched target checkpoint hashes must differ",
        }
    }
}

impl Config {
    /// Why the service cannot run with these settings, if it cannot.
    pub open spec fn run_error(self) -> Option<ConfigError> {
        match (self.target, self.checkpoint, self.run) {
            (None, _, _) => Some(ConfigError::NoTarget),
            (_, None, _) => Some(ConfigError::NoCheckpoint),
            (_, _, None) => Some(ConfigError::NoRun),
            (Some(_), Some(checkpoint), Some(run)) => match run.error() {
                Some(error) => Some(error),
                None => if checkpoint.source_hash == checkpoint.target_hash {
                    Some(ConfigError::SameCheckpointHash)
                } else {
                    None
                },
            },
        }
    }

    /// Checks what any command needs.
    pub fn check(&self) -> (r: Result<(), ConfigError>)
        ensures
            r == (if self.chain_id > 0 {
                Ok::<(), ConfigError>(())
            } else {
                Err(ConfigError::NoChainId)
            }),
    {
        if self.chain_id > 0 {
            Ok(())
        } else {
            Err(ConfigError::NoChainId)
        }
    }

    /// The settings that running the service needs, complete and bounded.
    pub fn run(&self) -> (r: Result<(&Endpoint, &Checkpoint, &Run), ConfigError>)
        ensures
            match self.run_error() {
                Some(error) => r matches Err(refused) && refused == error,
                None => r matches Ok(parts) && self.target == Some(*parts.0) && self.checkpoint == Some(*parts.1)
                    && self.run == Some(*parts.2),
            },
    {
        let target = match &self.target {
            Some(target) => target,
            None => {
                return Err(ConfigError::NoTarget);
            },
        };
        let checkpoint = match &self.checkpoint {
            Some(checkpoint) => checkpoint,
            None => {
                return Err(ConfigError::NoCheckpoint);
            },
        };
        let run = match &self.run {
            Some(run) => run,
            None => {
                return Err(ConfigError::NoRun);
            },
        };
        if let Err(error) = run.check() {
            return Err(error);
        }
        if checkpoint.source_hash == checkpoint.target_hash {
            return Err(ConfigError::SameCheckpointHash);
        }
        Ok((target, checkpoint, run))
    }
}

/// An RPC endpoint and how to reach it.
#[derive(Clone, Debug)]
pub struct Endpoint {
    pub url: String,
    /// The environment variable that holds the bearer token.
    pub credential_env: Option<String>,
    pub ca_file: Option<String>,
}

/// Why an endpoint was refused.
#[derive(Clone, Copy, Debug, PartialEq, Eq, Structural)]
pub enum EndpointError {
    InvalidUrl,
    NotHttps,
    EmbeddedParts,
}

impl EndpointError {
    /// What the error says.
    pub open spec fn text(self) -> Seq<char> {
        match self {
            EndpointError::InvalidUrl => "invalid RPC URL"@,
            EndpointError::NotHttps => "RPC endpoints must use HTTPS"@,
            EndpointError::EmbeddedParts => "RPC URL cannot embed credentials, query parameters, or fragments"@,
        }
    }

    /// What the error says.
    pub fn message(&self) -> (r: &'static str)
        ensures
            r@ == self.text(),
    {
        match self {
            EndpointError::InvalidUrl => "invalid RPC URL",
            EndpointError::NotHttps => "RPC endpoints must use HTTPS",
            EndpointError::EmbeddedParts => "RPC URL cannot embed credentials, query parameters, or fragments",
        }
    }
}

/// Why a URL with these parts is refused, if it is: its scheme, user name, password, query and
/// fragment.
pub open spec fn parts_error(
    parts: Option<(Seq<char>, Seq<char>, Option<Seq<char>>, Option<Seq<char>>, Option<Seq<char>>)>,
) -> Option<EndpointError> {
    match parts {
        None => Some(EndpointError::InvalidUrl),
        Some((scheme, username, password, query, fragment)) => if scheme != "https"@ {
            Some(EndpointError::NotHttps)
        } else if username.len() != 0 || password is Some || query is Some || fragment is Some {
            Some(EndpointError::EmbeddedParts)
        } else {
            None
        },
    }
}

/// Checks the parts of a URL: HTTPS, and nothing embedded.
pub fn check_parts(parts: &Option<UrlParts>) -> (r: Result<(), EndpointError>)
    ensures
        r == (match parts_error(
            match *parts {
                Some(parts) => Some(parts@),
                None => None,
            },
        ) {
            Some(error) => Err::<(), EndpointError>(error),
            None => Ok(()),
        }),
{
    let parts = match parts {
        Some(parts) => parts,
        None => {
            return Err(EndpointError::InvalidUrl);
        },
    };
    if !(parts.scheme == "https".to_owned()) {
        return Err(EndpointError::NotHttps);
    }
    if parts.username.as_str().unicode_len() != 0 || parts.password.is_some() || parts.query.is_some()
        || parts.fragment.is_some() {
        return Err(EndpointError::EmbeddedParts);
    }
    Ok(())
}

impl Endpoint {
    /// Checks that the endpoint's URL is safe to connect to.
    pub fn check(&self) -> (r: Result<(), EndpointError>)
        ensures
            r == (match parts_error(foreign::url_parts(self.url@)) {
                Some(error) => Err::<(), EndpointError>(error),
                None => Ok(()),
            }),
    {
        check_parts(&foreign::parse_url(self.url.as_str()))
    }
}

/// The block at which the shadow chain was cut off.
#[derive(Clone, Copy, Debug, PartialEq, Eq, Structural)]
pub struct Checkpoint {
    pub height: u64,
    pub source_hash: B256,
    pub target_hash: B256,
}

impl Checkpoint {
    /// The replay that starts at this checkpoint.
    pub fn identity(&self, chain_id: u64) -> (r: ReplayIdentity)
        ensures
            r == (ReplayIdentity {
                chain_id,
                checkpoint_height: self.height,
                source_hash: self.source_hash,
                target_hash: self.target_hash,
            }),
    {
        ReplayIdentity {
            chain_id,
            checkpoint_height: self.height,
            source_hash: self.source_hash,
            target_hash: self.target_hash,
        }
    }
}

/// The settings of a run. What is left out has a bounded default.
#[derive(Clone, Debug)]
pub struct Run {
    pub store: StoreConfig,
    /// Where metrics are served.
    pub metrics: Option<String>,
    pub concurrency: Option<usize>,
    pub retries: Option<u32>,
    pub retry_delay_ms: Option<u64>,
    pub max_rounds: Option<u32>,
    pub retain_included_blocks: Option<u64>,
    pub missing_after_blocks: Option<u64>,
    pub missing_after_seconds: Option<u64>,
    pub finality_stall_seconds: Option<u64>,
}

/// The value of a setting: as given, else its default.
pub open spec fn setting<T>(given: Option<T>, default: T) -> T {
    match given {
        Some(value) => value,
        None => default,
    }
}

impl Run {
    /// Why these settings are refused, if they are.
    pub open spec fn error(self) -> Option<ConfigError> {
        let max_rounds = setting(self.max_rounds, 3u32);
        if setting(self.concurrency, 64usize) == 0 {
            Some(ConfigError::NoConcurrency)
        } else if setting(self.retries, 2u32) > 4 || max_rounds < 1 || max_rounds > 8 {
            Some(ConfigError::UnboundedRetries)
        } else if setting(self.retry_delay_ms, 250u64) > 60_000 {
            Some(ConfigError::LongRetryDelay)
        } else if setting(self.store.max_bytes, 53_687_091_200u64) == 0 {
            Some(ConfigError::NoDatabaseLimit)
        } else if setting(self.missing_after_blocks, 64u64) == 0 && setting(self.missing_after_seconds, 120u64) == 0 {
            Some(ConfigError::NoMissingHorizon)
        } else {
            None
        }
    }

    /// Checks that the settings are bounded.
    pub fn check(&self) -> (r: Result<(), ConfigError>)
        ensures
            r == (match self.error() {
                Some(error) => Err::<(), ConfigError>(error),
                None => Ok(()),
            }),
    {
        if self.concurrency() == 0 {
            return Err(ConfigError::NoConcurrency);
        }
        if self.retries() > 4 || self.max_rounds() < 1 || self.max_rounds() > 8 {
            return Err(ConfigError::UnboundedRetries);
        }
        if self.retry_delay_ms() > 60_000 {
            return Err(ConfigError::LongRetryDelay);
        }
        if self.store.max_bytes() == 0 {
            return Err(ConfigError::NoDatabaseLimit);
        }
        if self.missing_after_blocks() == 0 && self.missing_after() == 0 {
            return Err(ConfigError::NoMissingHorizon);
        }
        Ok(())
    }

    /// How many lanes submit at once.
    pub fn concurrency(&self) -> (r: usize)
        ensures
            r == setting(self.concurrency, 64usize),
    {
        self.concurrency.unwrap_or(64)
    }

    /// How often an ambiguous request is repeated in one round.
    pub fn retries(&self) -> (r: u32)
        ensures
            r == setting(self.retries, 2u32),
    {
        self.retries.unwrap_or(2)
    }

    /// The pause before the first repetition, in milliseconds.
    pub fn retry_delay_ms(&self) -> (r: u64)
        ensures
            r == setting(self.retry_delay_ms, 250u64),
    {
        self.retry_delay_ms.unwrap_or(250)
    }

    /// How many submission rounds an occurrence may have.
    pub fn max_rounds(&self) -> (r: u32)
        ensures
            r == setting(self.max_rounds, 3u32),
    {
        self.max_rounds.unwrap_or(3)
    }

    /// For how many blocks clean inclusions are kept.
    pub fn retain_included_blocks(&self) -> (r: u64)
        ensures
            r == setting(self.retain_included_blocks, 10_000u64),
    {
        self.retain_included_blocks.unwrap_or(10_000)
    }

    /// After how many target blocks a delivered transaction is missing.
    pub fn missing_after_blocks(&self) -> (r: u64)
        ensures
            r == setting(self.missing_after_blocks, 64u64),
    {
        self.missing_after_blocks.unwrap_or(64)
    }

    /// After how many seconds a delivered transaction is missing.
    pub fn missing_after(&self) -> (r: u64)
        ensures
            r == setting(self.missing_after_seconds, 120u64),
    {
        self.missing_after_seconds.unwrap_or(120)
    }

    /// After how many seconds without target progress finality has stalled.
    pub fn finality_stall(&self) -> (r: u64)
        ensures
            r == setting(self.finality_stall_seconds, 30u64),
    {
        self.finality_stall_seconds.unwrap_or(30)
    }
}

/// Seconds in milliseconds, cut to 64 bits.
pub fn millis(seconds: u64) -> (r: u64)
    ensures
        r == (seconds * 1000) % 0x1_0000_0000_0000_0000,
{
    seconds.wrapping_mul(1000)
}

/// Where the evidence is stored and how much room it may take.
#[derive(Clone, Debug)]
pub struct StoreConfig {
    pub state: String,
    pub max_bytes: Option<u64>,
    pub min_free_bytes: Option<u64>,
}

impl StoreConfig {
    /// The most bytes that the store may take: 50 GiB unless set.
    pub fn max_bytes(&self) -> (r: u64)
        ensures
            r == setting(self.max_bytes, 53_687_091_200u64),
    {
        self.max_bytes.unwrap_or(50 * 1024 * 1024 * 1024)
    }

    /// The fewest bytes that the disk must have left: 5 GiB unless set.
    pub fn min_free_bytes(&self) -> (r: u64)
        ensures
            r == setting(self.min_free_bytes, 5_368_709_120u64),
    {
        self.min_free_bytes.unwrap_or(5 * 1024 * 1024 * 1024)
    }
}

/// The value of a setting is what was given, and its default only where nothing was.
pub proof fn law_a_setting_is_as_given<T>(value: T, default: T)
    ensures
        setting(Some(value), default) == value,
        setting(None::<T>, default) == default,
{
}

/// Settings of a run are refused if and only if one is out of its bounds: no lane at all, more than four
/// repetitions or a number of rounds other than one to eight, a pause of more than a minute, no room for
/// the store, or no window after which a transaction is missing. What is left out is within bounds.
pub proof fn law_settings_are_refused_out_of_bounds(run: Run)
    ensures
        ({
            let lanes = run.concurrency is Some && run.concurrency->0 == 0;
            let often = (run.retries is Some && run.retries->0 > 4) || (run.max_rounds is Some && (run.max_rounds->0 == 0
                || run.max_rounds->0 > 8));
            let long = run.retry_delay_ms is Some && run.retry_delay_ms->0 > 60_000;
            let room = run.store.max_bytes is Some && run.store.max_bytes->0 == 0;
            let never = run.missing_after_blocks is Some && run.missing_after_blocks->0 == 0 && run.missing_after_seconds is Some
                && run.missing_after_seconds->0 == 0;
            &&& run.error() is None <==> !lanes && !often && !long && !room && !never
            &&& run.error() == Some(ConfigError::NoConcurrency) <==> lanes
            &&& run.error() == Some(ConfigError::UnboundedRetries) <==> !lanes && often
            &&& run.error() == Some(ConfigError::LongRetryDelay) <==> !lanes && !often && long
            &&& run.error() == Some(ConfigError::NoDatabaseLimit) <==> !lanes && !often && !long && room
            &&& run.error() == Some(ConfigError::NoMissingHorizon) <==> !lanes && !often && !long && !room && never
        }),
{
}

/// A run needs a target, a checkpoint, settings within their bounds, and a checkpoint whose block the
/// target chain has patched: the hashes of both chains differ.
pub proof fn law_a_run_needs_a_target_a_checkpoint_and_bounds(config: Config)
    ensures
        config.run_error() is None <==> config.target is Some && config.checkpoint is Some && config.run is Some
            && config.run->0.error() is None && config.checkpoint->0.source_hash != config.checkpoint->0.target_hash,
        config.run_error() == Some(ConfigError::NoTarget) <==> config.target is None,
        config.run_error() == Some(ConfigError::NoCheckpoint) <==> config.target is Some && config.checkpoint is None,
        config.run_error() == Some(ConfigError::NoRun) <==> config.target is Some && config.checkpoint is Some
            && config.run is None,
        config.run_error() == Some(ConfigError::SameCheckpointHash) <==> config.target is Some && config.checkpoint is Some
            && config.run is Some && config.run->0.error() is None && config.checkpoint->0.source_hash
            == config.checkpoint->0.target_hash,
{
}

/// An endpoint is taken if and only if its URL can be read, is of HTTPS, and carries no user name,
/// password, query or fragment.
pub proof fn law_an_endpoint_is_https_with_nothing_embedded(
    parts: Option<(Seq<char>, Seq<char>, Option<Seq<char>>, Option<Seq<char>>, Option<Seq<char>>)>,
)
    ensures
        parts is None <==> parts_error(parts) == Some(EndpointError::InvalidUrl),
        parts matches Some((scheme, username, password, query, fragment)) ==> {
            let bare = username.len() == 0 && password is None && query is None && fragment is None;
            &&& parts_error(parts) is None <==> scheme == "https"@ && bare
            &&& parts_error(parts) == Some(EndpointError::NotHttps) <==> scheme != "https"@
            &&& parts_error(parts) == Some(EndpointError::EmbeddedParts) <==> scheme == "https"@ && !bare
        },
{
}

/// Settings that pass keep every occurrence within the bound on its attempts: its rounds, each with
/// a first attempt and its repetitions, never make more than a record may hold.
pub proof fn law_bounded_settings_bound_the_attempts(run: Run)
    requires
        run.error() is None,
    ensures
        setting(run.max_rounds, 3u32) * (setting(run.retries, 2u32) + 1) <= model::MAX_ATTEMPTS,
        setting(run.max_rounds, 3u32) > 0,
{
    let rounds = setting(run.max_rounds, 3u32) as int;
    let attempts = setting(run.retries, 2u32) + 1;
    assert(rounds * attempts <= 40) by (nonlinear_arith)
        requires
            1 <= rounds <= 8,
            1 <= attempts <= 5,
    ;
}

} // verus!
