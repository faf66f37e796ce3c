//! Configuration of the object-store write-ahead log.

use vstd::prelude::*;

verus! {

/// Environment variable enabling the ingest v3 object-store WAL.
pub const ENABLE_INGEST_V3_ENV_KEY: &'static str = "QW_ENABLE_INGEST_V3";

/// Environment variable holding the URI of the object store where WAL objects are written.
/// Cluster-level: WAL objects multiplex several indexes and cannot live under an `index_uri`.
pub const INGEST_WAL_URI_ENV_KEY: &'static str = "QW_INGEST_WAL_URI";

/// Environment variable overriding the WAL flush interval, in milliseconds.
pub const INGEST_WAL_FLUSH_INTERVAL_MS_ENV_KEY: &'static str = "QW_INGEST_WAL_FLUSH_INTERVAL_MS";

/// Environment variable overriding the size of records at which an object is written without
/// waiting for the flush interval (e.g. `16MiB`). Under load this is what sets the object size,
/// hence the PUT count per byte ingested.
pub const INGEST_WAL_FLUSH_NUM_BYTES_ENV_KEY: &'static str = "QW_INGEST_WAL_FLUSH_NUM_BYTES";

/// Environment variable overriding how long an ingester must be absent before indexers drain its
/// shards from its object WAL, in seconds.
pub const INGEST_WAL_FETCH_FALLBACK_GRACE_SECS_ENV_KEY: &'static str =
    "QW_INGEST_WAL_FETCH_FALLBACK_GRACE_SECS";

/// Environment variable overriding the minimum age of a WAL object before the janitor may delete
/// it, in seconds.
pub const INGEST_WAL_GC_MIN_AGE_SECS_ENV_KEY: &'static str = "QW_INGEST_WAL_GC_MIN_AGE_SECS";

/// What the environment says about the log. A variable that is absent is `None`; so is a number
/// that does not parse.
pub struct IngestV3Env {
    /// Whether ingest v3 is switched on.
    pub enabled: bool,
    /// The URI of the log, or why it does not parse.
    pub wal_uri: Option<Result<String, String>>,
    pub flush_interval_millis: Option<u64>,
    pub flush_num_bytes: Option<u64>,
    pub fetch_fallback_grace_secs: Option<u64>,
    pub gc_min_age_secs: Option<u64>,
}

/// Runtime configuration of the ingest v3 WAL.
#[derive(Clone, Debug)]
pub struct IngestV3Config {
    /// Object store URI where WAL objects are written.
    pub wal_uri: String,
    /// Maximum time records wait in memory before an object is written. Bounds the
    /// acknowledgement latency and the object-store PUT rate (`1 / flush_interval` per ingester
    /// while there is traffic).
    pub flush_interval_millis: u64,
    /// Once the buffer holds this many bytes, an object is written without waiting for the
    /// interval. Under load this makes object size, not the timer, drive the flush.
    pub flush_num_bytes: u64,
    /// Maximum number of bytes buffered in memory and not yet durable. Beyond it, appends are
    /// rejected until a flush completes (backpressure).
    pub max_buffered_num_bytes: u64,
    /// Indexer side: how long an ingester must be missing from the cluster before the fetch
    /// stream fences its log and drains the shard from object storage.
    pub fetch_fallback_grace_secs: u64,
    /// Janitor side: objects younger than this are never deleted by the cluster-wide GC.
    pub gc_min_age_secs: u64,
}

/// Ingest v3 is switched on, but the environment names no log to write to.
#[derive(Clone, Debug, PartialEq, Eq)]
pub enum IngestV3ConfigError {
    /// The URI of the log is missing.
    MissingWalUri,
    /// The URI of the log does not parse, for this reason.
    InvalidWalUri(String),
}

impl IngestV3ConfigError {
    /// What the error says.
    pub open spec fn message(self) -> Seq<char> {
        match self {
            IngestV3ConfigError::MissingWalUri =>
                "`QW_ENABLE_INGEST_V3` is set but `QW_INGEST_WAL_URI` is missing"@,
            IngestV3ConfigError::InvalidWalUri(reason) => reason@,
        }
    }

    /// The error as a sentence.
    pub fn to_text(&self) -> (text: String)
        ensures
            text@ == self.message(),
    {
        match self {
            IngestV3ConfigError::MissingWalUri =>
                "`QW_ENABLE_INGEST_V3` is set but `QW_INGEST_WAL_URI` is missing".to_owned(),
            IngestV3ConfigError::InvalidWalUri(reason) => reason.clone(),
        }
    }
}

/// A value, or what stands for it when there is none.
pub open spec fn value_or(value: Option<u64>, default: u64) -> u64 {
    match value {
        Some(value) => value,
        None => default,
    }
}

/// The buffer that goes with a flush size: the default one, unless eight objects do not fit it.
pub open spec fn buffer_for(flush_num_bytes: u64) -> int {
    if flush_num_bytes * 8 > 268_435_456 {
        flush_num_bytes * 8
    } else {
        268_435_456
    }
}

impl IngestV3Config {
    /// Reads the configuration from the environment. Returns `None` if ingest v3 is disabled.
    pub fn from_env(env: IngestV3Env) -> (config: Result<Option<Self>, IngestV3ConfigError>)
        requires
            env.enabled && env.wal_uri is Some && env.wal_uri->0 is Ok && env.flush_num_bytes is Some
                ==> env.flush_num_bytes->0 * 8 <= u64::MAX,
        ensures
            match (env.enabled, env.wal_uri) {
                (false, _) => config == Ok::<Option<Self>, IngestV3ConfigError>(None),
                (true, None) => config == Err::<Option<Self>, IngestV3ConfigError>(
                    IngestV3ConfigError::MissingWalUri,
                ),
                (true, Some(Err(reason))) => config == Err::<Option<Self>, IngestV3ConfigError>(
                    IngestV3ConfigError::InvalidWalUri(reason),
                ),
                (true, Some(Ok(wal_uri))) => {
                    &&& config matches Ok(Some(config))
                    &&& config.wal_uri@ == wal_uri@
                    &&& config.flush_interval_millis == value_or(env.flush_interval_millis, 250)
                    &&& config.flush_num_bytes == value_or(env.flush_num_bytes, 8_388_608)
                    &&& config.max_buffered_num_bytes == buffer_for(config.flush_num_bytes)
                    &&& config.fetch_fallback_grace_secs == value_or(
                        env.fetch_fallback_grace_secs,
                        60,
                    )
                    &&& config.gc_min_age_secs == value_or(env.gc_min_age_secs, 600)
                },
            },
    {
        if !env.enabled {
            return Ok(None);
        }
        let wal_uri = match env.wal_uri {
            Some(Ok(wal_uri)) => wal_uri,
            Some(Err(reason)) => return Err(IngestV3ConfigError::InvalidWalUri(reason)),
            None => return Err(IngestV3ConfigError::MissingWalUri),
        };
        let mut config = IngestV3Config::with_wal_uri(wal_uri);
        if let Some(millis) = env.flush_interval_millis {
            config.flush_interval_millis = millis;
        }
        if let Some(num_bytes) = env.flush_num_bytes {
            config.flush_num_bytes = num_bytes;
            if config.max_buffered_num_bytes < num_bytes * 8 {
                config.max_buffered_num_bytes = num_bytes * 8;
            }
        }
        if let Some(secs) = env.fetch_fallback_grace_secs {
            config.fetch_fallback_grace_secs = secs;
        }
        if let Some(secs) = env.gc_min_age_secs {
            config.gc_min_age_secs = secs;
        }
        Ok(Some(config))
    }

    /// Default configuration for the given WAL URI.
    pub fn with_wal_uri(wal_uri: String) -> (config: Self)
        ensures
            config.wal_uri@ == wal_uri@,
            config.flush_interval_millis == 250,
            config.flush_num_bytes == 8_388_608,
            config.max_buffered_num_bytes == 268_435_456,
            config.fetch_fallback_grace_secs == 60,
            config.gc_min_age_secs == 600,
    {
        IngestV3Config {
            wal_uri,
            flush_interval_millis: 250,
            flush_num_bytes: 8_388_608,
            max_buffered_num_bytes: 268_435_456,
            fetch_fallback_grace_secs: 60,
            gc_min_age_secs: 600,
        }
    }
}

/// A buffer always has room for a whole object.
pub proof fn buffer_holds_an_object(flush_num_bytes: u64)
    ensures
        flush_num_bytes <= buffer_for(flush_num_bytes),
{
}

/// A setting that is given is taken as it is, and one that is not has its default.
pub proof fn given_settings_are_taken(value: u64, default: u64)
    ensures
        value_or(Some(value), default) == value,
        value_or(None, default) == default,
{
}

/// The buffer holds eight objects that are full, and never less than by default.
pub proof fn buffer_holds_eight_objects(flush_num_bytes: u64)
    ensures
        buffer_for(flush_num_bytes) >= 8 * flush_num_bytes,
        buffer_for(flush_num_bytes) >= 268_435_456,
        buffer_for(flush_num_bytes) == 8 * flush_num_bytes || buffer_for(flush_num_bytes)
            == 268_435_456,
{
}

} // verus!
