//! The settings of the forwarder of listed remotes.
use crate::float_bits::Double;
use crate::net::SocketAddr;
use crate::time::Duration;
use vstd::prelude::*;

verus! {

/// All settings.
#[derive(Debug)]
pub struct Config {
    pub server: ServerConfig,
    pub logging: LoggingConfig,
    pub metrics: MetricsConfig,
    pub remotes: RemotesConfig,
    pub pools: PoolsConfig,
}

/// Where connections are accepted.
#[derive(Clone, Copy, Debug, PartialEq, Eq, Structural)]
pub struct ServerConfig {
    pub listen_addr: SocketAddr,
}

/// What is logged, how and where to.
#[derive(Debug)]
pub struct LoggingConfig {
    pub level: String,
    pub format: String,
    pub output: String,
}

/// Where the metrics are served.
#[derive(Debug)]
pub struct MetricsConfig {
    pub enabled: bool,
    pub listen_addr: SocketAddr,
    pub path: String,
}

/// The remotes: where they are listed, how they are probed, scored and chosen.
#[derive(Debug)]
pub struct RemotesConfig {
    pub default_remote_port: u16,
    pub provider: ProviderConfig,
    pub probing: ProbingConfig,
    pub scoring: ScoringConfig,
    pub selector: SelectorConfig,
}

/// Where the remotes are listed.
#[derive(Debug)]
pub struct ProviderConfig {
    pub provider_type: String,
    pub file: Option<FileProviderConfig>,
}

/// The file in which the remotes are listed.
#[derive(Debug)]
pub struct FileProviderConfig {
    pub path: String,
    pub watch: bool,
}

/// How remotes are probed.
#[derive(Clone, Copy, Debug, PartialEq, Eq, Structural)]
pub struct ProbingConfig {
    pub interval: Duration,
    pub timeout: Duration,
    pub probe_candidate_count: usize,
    pub initial: Option<InitialProbingConfig>,
}

/// How remotes are probed at the start.
#[derive(Clone, Copy, Debug, PartialEq, Eq, Structural)]
pub struct InitialProbingConfig {
    pub enabled: bool,
    pub max_concurrency: usize,
    pub timeout: Option<Duration>,
}

/// Probing at the start is on where nothing is set.
pub fn default_true() -> (b: bool)
    ensures
        b,
{
    true
}

/// The remotes probed at once at the start, where nothing is set.
pub fn default_initial_concurrency() -> (n: usize)
    ensures
        n == 100,
{
    100
}

/// How remotes are scored.
#[derive(Clone, Copy, Debug, PartialEq, Eq, Structural)]
pub struct ScoringConfig {
    pub weights: ScoringWeightsConfig,
    pub latency: LatencyConfig,
    pub jitter: JitterConfig,
    pub success_rate: SuccessRateConfig,
    pub failure_penalty: FailurePenaltyConfig,
    pub historical_bonus: HistoricalBonusConfig,
}

#[derive(Clone, Copy, Debug, PartialEq, Eq, Structural)]
pub struct ScoringWeightsConfig {
    pub latency: Double,
    pub jitter: Double,
    pub success_rate: Double,
}

#[derive(Clone, Copy, Debug, PartialEq, Eq, Structural)]
pub struct LatencyConfig {
    pub max_score: Double,
    pub ewma_alpha: Double,
    pub base_latency: Duration,
    pub max_acceptable_latency: Duration,
}

#[derive(Clone, Copy, Debug, PartialEq, Eq, Structural)]
pub struct JitterConfig {
    pub max_score: Double,
    pub ewma_alpha: Double,
    pub base_jitter: Duration,
    pub max_acceptable_jitter: Duration,
}

#[derive(Clone, Copy, Debug, PartialEq, Eq, Structural)]
pub struct SuccessRateConfig {
    pub max_score: Double,
    pub ewma_alpha: Double,
}

#[derive(Clone, Copy, Debug, PartialEq, Eq, Structural)]
pub struct FailurePenaltyConfig {
    pub base_penalty: Double,
    pub exponent_factor: Double,
    pub max_penalty: Double,
    pub recovery_per_check: Double,
}

#[derive(Clone, Copy, Debug, PartialEq, Eq, Structural)]
pub struct HistoricalBonusConfig {
    pub max_bonus: Double,
    pub checks_per_point: u64,
}

/// How remotes are chosen.
#[derive(Clone, Copy, Debug, PartialEq, Eq, Structural)]
pub struct SelectorConfig {
    pub evaluation_interval: Duration,
    /// The remotes in use at most.
    pub active_set_size: usize,
    /// The score that a remote needs.
    pub min_score_threshold: Double,
    pub switching: SwitchingPolicyConfig,
}

/// When the remotes in use change.
#[derive(Clone, Copy, Debug, PartialEq, Eq, Structural)]
pub struct SwitchingPolicyConfig {
    /// The time for which small changes are put off.
    pub debounce_interval: Duration,
    /// The gain in score that makes a change a large one.
    pub score_improvement_threshold: Double,
}

/// The pools of connections, and how connections are spread.
#[derive(Debug)]
pub struct PoolsConfig {
    pub algorithm: String,
    pub common: PoolCommonConfig,
    pub strategy: PoolStrategyConfig,
}

#[derive(Clone, Copy, Debug, PartialEq, Eq, Structural)]
pub struct PoolCommonConfig {
    pub dial_timeout: Duration,
    pub idle_timeout: Duration,
    pub drain_timeout: Duration,
}

/// How large the pools are.
#[derive(Debug)]
pub struct PoolStrategyConfig {
    pub strategy_type: String,
    pub static_: Option<StaticStrategyConfig>,
    pub dynamic: Option<DynamicStrategyConfig>,
}

/// Pools of one size.
#[derive(Clone, Copy, Debug, PartialEq, Eq, Structural)]
pub struct StaticStrategyConfig {
    pub size_per_remote: usize,
}

/// Pools that grow and shrink.
#[derive(Clone, Copy, Debug, PartialEq, Eq, Structural)]
pub struct DynamicStrategyConfig {
    pub min_size: usize,
    pub max_size: usize,
    pub scaling: ScalingConfig,
}

/// How pools grow and shrink.
#[derive(Clone, Copy, Debug, PartialEq, Eq, Structural)]
pub struct ScalingConfig {
    pub interval: Duration,
    /// The spare connections as a part of the peak.
    pub target_buffer_ratio: Double,
    pub scale_up_increment: usize,
    pub scale_down_increment: usize,
}

} // verus!
