//! Settings of the server that computes anonymous statistics.

use vstd::prelude::*;
use vstd::string::*;

verus! {

/// The error of `serde_json`.
#[verifier::external_type_specification]
#[verifier::external_body]
pub struct ExJsonError(serde_json::Error);

/// The list of 16-bit numbers that a JSON text stands for, if it stands for one.
pub uninterp spec fn json_i16_list(text: Seq<char>) -> Option<Seq<i16>>;

/// The list of strings that a JSON text stands for, if it stands for one.
pub uninterp spec fn json_string_list(text: Seq<char>) -> Option<Seq<Seq<char>>>;

/// Reads a list of 16-bit numbers with `serde_json::from_str`. Claims that the outcome depends on
/// the text alone.
#[verifier::external_body]
fn parse_i16_list(text: &str) -> (r: Result<Vec<i16>, serde_json::Error>)
    ensures
        match json_i16_list(text@) {
            Some(list) => r is Ok && r->Ok_0@ == list,
            None => r is Err,
        },
{
    serde_json::from_str(text)
}

/// Reads a list of strings with `serde_json::from_str`. Claims that the outcome depends on the text
/// alone.
#[verifier::external_body]
fn parse_string_list(text: &str) -> (r: Result<Vec<String>, serde_json::Error>)
    ensures
        match json_string_list(text@) {
            Some(list) => r is Ok && r->Ok_0@.map_values(|s: String| s@) == list,
            None => r is Err,
        },
{
    serde_json::from_str(text)
}

/// Why settings are refused.
#[derive(Clone, Copy, Debug, PartialEq, Eq, Structural)]
pub enum ConfigError {
    /// A job in one dimension may need more rows than it may fetch.
    MaxRowsPerJob1d,
    /// A job in two dimensions may need more rows than it may fetch.
    MaxRowsPerJob2d,
    /// A text is not the JSON list that was expected.
    InvalidJson,
}

/// What the command line may set.
#[derive(Debug)]
pub struct Opt {
    pub party_id: Option<usize>,
    /// The addresses of the parties.
    pub addresses: Option<Vec<String>>,
    pub healthcheck_port: Option<usize>,
    pub results_topic_arn: Option<String>,
}

/// How the servers find each other and watch each other.
#[derive(Debug)]
pub struct ServerCoordinationConfig {
    pub party_id: usize,
    pub node_hostnames: Vec<String>,
    pub healthcheck_ports: Vec<String>,
    pub image_name: String,
    pub http_query_retry_delay_ms: u64,
    pub startup_sync_timeout_secs: u64,
    pub heartbeat_interval_secs: u64,
    pub heartbeat_initial_retries: u64,
}

/// Settings of the server. The upper end of the histogram of normalized scores is a fraction and is
/// kept beside them.
#[derive(Debug)]
pub struct AnonStatsServerConfig {
    pub party_id: usize,
    pub environment: String,
    pub results_topic_arn: String,
    pub sns_buffer_bucket_name: String,
    /// Number of buckets in one dimension.
    pub n_buckets_1d: usize,
    /// Number of buckets in one dimension for a repeated authentication.
    pub n_buckets_1d_reauth: usize,
    /// Number of buckets in two dimensions.
    pub n_buckets_2d: usize,
    /// Number of buckets in two dimensions for a repeated authentication.
    pub n_buckets_2d_reauth: usize,
    /// Number of buckets in one dimension for normalized scores.
    pub n_buckets_1d_nhd: usize,
    /// Number of buckets in two dimensions for normalized scores.
    pub n_buckets_2d_nhd: usize,
    /// The least number of rows that a job in one dimension waits for.
    pub min_1d_job_size: usize,
    pub min_1d_job_size_reauth: usize,
    pub min_1d_job_size_recovery: usize,
    pub min_1d_job_size_mirror: usize,
    /// The least number of rows that a job in two dimensions waits for.
    pub min_2d_job_size: usize,
    /// The least number of rows that a face job waits for.
    pub min_face_job_size: usize,
    pub min_face_job_size_reauth: usize,
    pub min_2d_job_size_reauth: usize,
    pub min_2d_job_size_recovery: usize,
    pub min_2d_job_size_mirror: usize,
    /// The largest number of rows that a job in one dimension fetches.
    pub max_rows_per_job_1d: usize,
    /// The largest number of rows that a job in two dimensions fetches.
    pub max_rows_per_job_2d: usize,
    /// Seconds between two attempts.
    pub poll_interval_secs: u64,
    /// Borders of the face buckets.
    pub face_bucket_thresholds: Vec<i16>,
    /// Borders of the buckets of deep identifiers in two dimensions.
    pub di_2d_bucket_thresholds: Vec<i16>,
    /// Number of mismatches in a row after which the own queue is cleared.
    pub max_sync_failures_before_reset: usize,
    pub db_url: String,
    pub db_schema_name: String,
    pub server_coordination: Option<ServerCoordinationConfig>,
    pub service_ports: Vec<String>,
    pub shutdown_last_results_sync_timeout_secs: u64,
}

/// Numbers from `start` in steps of `step`.
pub open spec fn steps(start: int, step: int, n: nat) -> Seq<i16> {
    Seq::new(n, |i: int| (start + step * i) as i16)
}

fn stepped(start: i16, step: i16, n: usize) -> (r: Vec<i16>)
    requires
        step > 0,
        start + step * n <= i16::MAX,
    ensures
        r@ == steps(start as int, step as int, n as nat),
        r@.len() == n,
        forall|i: int| 0 <= i < n ==> #[trigger] r@[i] == start + step * i,
{
    let mut out: Vec<i16> = Vec::new();
    let mut at: i16 = start;
    let mut i: usize = 0;
    while i < n
        invariant
            step > 0,
            start + step * n <= i16::MAX,
            i <= n,
            at == start + step * i,
            out@.len() == i,
            forall|j: int| 0 <= j < i ==> #[trigger] out@[j] == start + step * j,
        decreases n - i,
    {
        out.push(at);
        assert(step * (i + 1) == step * i + step) by (nonlinear_arith);
        assert(step * (i + 1) <= step * n) by (nonlinear_arith)
            requires
                step > 0,
                i < n,
        ;
        at = at + step;
        i += 1;
    }
    assert(out@ =~= steps(start as int, step as int, n as nat));
    out
}

/// Borders of the face buckets: from -2000 in steps of 100, below 4000.
pub fn default_face_bucket_thresholds() -> (r: Vec<i16>)
    ensures
        r@ == steps(-2000, 100, 60),
        r@.len() == 60,
        forall|i: int| 0 <= i < 60 ==> #[trigger] r@[i] == 100 * i - 2000,
{
    stepped(-2000, 100, 60)
}

/// Borders of the buckets of deep identifiers: from -1000 in steps of 5 up to 3000, and 4000.
pub fn default_di_2d_bucket_thresholds() -> (r: Vec<i16>)
    ensures
        r@ == steps(-1000, 5, 801).push(4000),
        r@.len() == 802,
        forall|i: int| 0 <= i < 801 ==> #[trigger] r@[i] == 5 * i - 1000,
        r@[801] == 4000,
{
    let mut thresholds: Vec<i16> = stepped(-1000, 5, 801);
    thresholds.push(4000);
    thresholds
}

pub fn default_n_buckets_1d() -> (r: usize)
    ensures
        r == 10,
{
    10
}

pub fn default_n_buckets_1d_reauth() -> (r: usize)
    ensures
        r == 20,
{
    20
}

pub fn default_n_buckets_2d() -> (r: usize)
    ensures
        r == 10,
{
    10
}

pub fn default_n_buckets_2d_reauth() -> (r: usize)
    ensures
        r == 15,
{
    15
}

/// Keeps the width of a bucket at a thousandth over the wider range of normalized scores.
pub fn default_n_buckets_1d_nhd() -> (r: usize)
    ensures
        r == 400,
{
    400
}

pub fn default_n_buckets_2d_nhd() -> (r: usize)
    ensures
        r == 400,
{
    400
}

pub fn default_min_1d_job_size() -> (r: usize)
    ensures
        r == 1000,
{
    1000
}

pub fn default_min_2d_job_size() -> (r: usize)
    ensures
        r == 1000,
{
    1000
}

pub fn default_min_face_job_size() -> (r: usize)
    ensures
        r == 1000,
{
    1000
}

pub fn default_min_face_job_size_reauth() -> (r: usize)
    ensures
        r == 1000,
{
    default_min_face_job_size()
}

pub fn default_min_1d_job_size_reauth() -> (r: usize)
    ensures
        r == 1000,
{
    default_min_1d_job_size()
}

pub fn default_min_1d_job_size_recovery() -> (r: usize)
    ensures
        r == 1000,
{
    default_min_1d_job_size()
}

pub fn default_min_1d_job_size_mirror() -> (r: usize)
    ensures
        r == 1000,
{
    default_min_1d_job_size()
}

pub fn default_min_2d_job_size_reauth() -> (r: usize)
    ensures
        r == 1000,
{
    default_min_2d_job_size()
}

pub fn default_min_2d_job_size_recovery() -> (r: usize)
    ensures
        r == 1000,
{
    default_min_2d_job_size()
}

pub fn default_min_2d_job_size_mirror() -> (r: usize)
    ensures
        r == 1000,
{
    default_min_2d_job_size()
}

pub fn default_max_rows_per_job_1d() -> (r: usize)
    ensures
        r == 100_000,
{
    100_000
}

pub fn default_max_rows_per_job_2d() -> (r: usize)
    ensures
        r == 10_000,
{
    10_000
}

pub fn default_schema_name() -> (r: String)
    ensures
        r@ == "anon_stats_mpc"@,
{
    "anon_stats_mpc".to_owned()
}

pub fn default_poll_interval_secs() -> (r: u64)
    ensures
        r == 30,
{
    30
}

pub fn default_max_sync_failures_before_reset() -> (r: usize)
    ensures
        r == 3,
{
    3
}

pub fn default_shutdown_last_results_sync_timeout_secs() -> (r: u64)
    ensures
        r == 10,
{
    10
}

impl AnonStatsServerConfig {
    /// No job in one dimension may need more rows than it may fetch.
    pub open spec fn limits_1d(&self) -> bool {
        &&& self.min_1d_job_size <= self.max_rows_per_job_1d
        &&& self.min_1d_job_size_reauth <= self.max_rows_per_job_1d
        &&& self.min_1d_job_size_recovery <= self.max_rows_per_job_1d
        &&& self.min_1d_job_size_mirror <= self.max_rows_per_job_1d
        &&& self.min_face_job_size <= self.max_rows_per_job_1d
        &&& self.min_face_job_size_reauth <= self.max_rows_per_job_1d
    }

    /// No job in two dimensions may need more rows than it may fetch.
    pub open spec fn limits_2d(&self) -> bool {
        &&& self.min_2d_job_size <= self.max_rows_per_job_2d
        &&& self.min_2d_job_size_reauth <= self.max_rows_per_job_2d
        &&& self.min_2d_job_size_recovery <= self.max_rows_per_job_2d
        &&& self.min_2d_job_size_mirror <= self.max_rows_per_job_2d
    }

    /// What the limits on jobs say of the settings.
    pub open spec fn limits_verdict(&self) -> Result<(), ConfigError> {
        if !self.limits_1d() {
            Err(ConfigError::MaxRowsPerJob1d)
        } else if !self.limits_2d() {
            Err(ConfigError::MaxRowsPerJob2d)
        } else {
            Ok(())
        }
    }

    /// Settings for tests: no limits on jobs, no borders of buckets.
    pub fn test_default() -> (r: AnonStatsServerConfig)
        ensures
            r.party_id == 0,
            r.environment@ == "test"@,
            r.results_topic_arn@ == "test"@,
            r.sns_buffer_bucket_name@ == "test"@,
            r.n_buckets_1d == 10,
            r.n_buckets_1d_reauth == 20,
            r.n_buckets_2d == 10,
            r.n_buckets_2d_reauth == 15,
            r.n_buckets_1d_nhd == 10,
            r.n_buckets_2d_nhd == 10,
            r.min_1d_job_size == 0,
            r.min_1d_job_size_reauth == 0,
            r.min_1d_job_size_recovery == 0,
            r.min_1d_job_size_mirror == 0,
            r.min_2d_job_size == 0,
            r.min_2d_job_size_reauth == 0,
            r.min_2d_job_size_recovery == 0,
            r.min_2d_job_size_mirror == 0,
            r.min_face_job_size == 0,
            r.min_face_job_size_reauth == 0,
            r.max_rows_per_job_1d == 0,
            r.max_rows_per_job_2d == 0,
            r.poll_interval_secs == 30,
            r.face_bucket_thresholds@.len() == 0,
            r.di_2d_bucket_thresholds@.len() == 0,
            r.max_sync_failures_before_reset == 3,
            r.db_url@ == Seq::<char>::empty(),
            r.db_schema_name@ == "anon_stats_mpc"@,
            r.server_coordination is None,
            r.service_ports@.len() == 0,
            r.shutdown_last_results_sync_timeout_secs == 10,
            r.limits_verdict() == Ok::<(), ConfigError>(()),
    {
        AnonStatsServerConfig {
            party_id: 0,
            environment: "test".to_owned(),
            results_topic_arn: "test".to_owned(),
            sns_buffer_bucket_name: "test".to_owned(),
            n_buckets_1d: default_n_buckets_1d(),
            n_buckets_1d_reauth: default_n_buckets_1d_reauth(),
            n_buckets_2d: default_n_buckets_2d(),
            n_buckets_2d_reauth: default_n_buckets_2d_reauth(),
            n_buckets_1d_nhd: default_n_buckets_1d(),
            n_buckets_2d_nhd: default_n_buckets_2d(),
            min_1d_job_size: 0,
            min_1d_job_size_reauth: 0,
            min_1d_job_size_recovery: 0,
            min_1d_job_size_mirror: 0,
            min_2d_job_size: 0,
            min_face_job_size: 0,
            min_face_job_size_reauth: 0,
            min_2d_job_size_reauth: 0,
            min_2d_job_size_recovery: 0,
            min_2d_job_size_mirror: 0,
            max_rows_per_job_1d: 0,
            max_rows_per_job_2d: 0,
            poll_interval_secs: default_poll_interval_secs(),
            face_bucket_thresholds: Vec::new(),
            di_2d_bucket_thresholds: Vec::new(),
            max_sync_failures_before_reset: default_max_sync_failures_before_reset(),
            db_url: String::new(),
            db_schema_name: default_schema_name(),
            server_coordination: None,
            service_ports: Vec::new(),
            shutdown_last_results_sync_timeout_secs:
                default_shutdown_last_results_sync_timeout_secs(),
        }
    }

    /// Last step of loading settings: the party is the one that the coordination names, and the
    /// settings are checked.
    pub fn load_config(loaded: AnonStatsServerConfig) -> (r: Result<
        AnonStatsServerConfig,
        ConfigError,
    >)
        ensures
            match loaded.limits_verdict() {
                Err(e) => r == Err::<AnonStatsServerConfig, ConfigError>(e),
                Ok(_) => {
                    &&& r is Ok
                    &&& r->Ok_0 == (AnonStatsServerConfig {
                        party_id: match loaded.server_coordination {
                            Some(c) => c.party_id,
                            None => loaded.party_id,
                        },
                        ..loaded
                    })
                },
            },
    {
        let mut config: AnonStatsServerConfig = loaded;
        let party: usize = match &config.server_coordination {
            Some(c) => c.party_id,
            None => config.party_id,
        };
        config.party_id = party;
        match config.validate_config() {
            Ok(_) => Ok(config),
            Err(e) => Err(e),
        }
    }

    /// What the command line sets goes before what was loaded.
    pub fn overwrite_defaults_with_cli_args(&mut self, opts: Opt)
        ensures
            *final(self) == (AnonStatsServerConfig {
                party_id: match opts.party_id {
                    Some(p) => p,
                    None => old(self).party_id,
                },
                results_topic_arn: match opts.results_topic_arn {
                    Some(arn) => arn,
                    None => old(self).results_topic_arn,
                },
                ..*old(self)
            }),
    {
        if let Some(party_id) = opts.party_id {
            self.party_id = party_id;
        }
        if let Some(results_topic_arn) = opts.results_topic_arn {
            self.results_topic_arn = results_topic_arn;
        }
    }

    /// Checks the settings.
    pub fn validate_config(&self) -> (r: Result<(), ConfigError>)
        ensures
            r == self.limits_verdict(),
    {
        self.validate_job_limits()
    }

    /// Checks that no job may need more rows than it may fetch.
    pub fn validate_job_limits(&self) -> (r: Result<(), ConfigError>)
        ensures
            r == self.limits_verdict(),
            ({
                let fits_1d = self.min_1d_job_size <= self.max_rows_per_job_1d
                    && self.min_1d_job_size_reauth <= self.max_rows_per_job_1d
                    && self.min_1d_job_size_recovery <= self.max_rows_per_job_1d
                    && self.min_1d_job_size_mirror <= self.max_rows_per_job_1d
                    && self.min_face_job_size <= self.max_rows_per_job_1d
                    && self.min_face_job_size_reauth <= self.max_rows_per_job_1d;
                let fits_2d = self.min_2d_job_size <= self.max_rows_per_job_2d
                    && self.min_2d_job_size_reauth <= self.max_rows_per_job_2d
                    && self.min_2d_job_size_recovery <= self.max_rows_per_job_2d
                    && self.min_2d_job_size_mirror <= self.max_rows_per_job_2d;
                &&& (r is Ok) == (fits_1d && fits_2d)
                &&& !fits_1d ==> r == Err::<(), ConfigError>(ConfigError::MaxRowsPerJob1d)
                &&& fits_1d && !fits_2d ==> r == Err::<(), ConfigError>(
                    ConfigError::MaxRowsPerJob2d,
                )
            }),
    {
        if self.max_rows_per_job_1d < self.min_1d_job_size || self.max_rows_per_job_1d
            < self.min_1d_job_size_reauth || self.max_rows_per_job_1d
            < self.min_1d_job_size_recovery || self.max_rows_per_job_1d
            < self.min_1d_job_size_mirror || self.max_rows_per_job_1d < self.min_face_job_size
            || self.max_rows_per_job_1d < self.min_face_job_size_reauth {
            return Err(ConfigError::MaxRowsPerJob1d);
        }
        if self.max_rows_per_job_2d < self.min_2d_job_size || self.max_rows_per_job_2d
            < self.min_2d_job_size_reauth || self.max_rows_per_job_2d
            < self.min_2d_job_size_recovery || self.max_rows_per_job_2d
            < self.min_2d_job_size_mirror {
            return Err(ConfigError::MaxRowsPerJob2d);
        }
        Ok(())
    }
}

/// The strings of a setting that is a JSON list.
pub fn deserialize_yaml_json_string(value: &str) -> (r: Result<Vec<String>, ConfigError>)
    ensures
        match json_string_list(value@) {
            Some(list) => r is Ok && r->Ok_0@.map_values(|s: String| s@) == list,
            None => r == Err::<Vec<String>, ConfigError>(ConfigError::InvalidJson),
        },
{
    match parse_string_list(value) {
        Ok(list) => Ok(list),
        Err(_) => Err(ConfigError::InvalidJson),
    }
}

/// The numbers of a setting that is a JSON list.
pub fn deserialize_yaml_json_i16(value: &str) -> (r: Result<Vec<i16>, ConfigError>)
    ensures
        match json_i16_list(value@) {
            Some(list) => r is Ok && r->Ok_0@ == list,
            None => r == Err::<Vec<i16>, ConfigError>(ConfigError::InvalidJson),
        },
{
    match parse_i16_list(value) {
        Ok(list) => Ok(list),
        Err(_) => Err(ConfigError::InvalidJson),
    }
}

} // verus!
