//! The settings of the forwarder, and what makes them valid.
use crate::float_bits::{Double, Single};
use crate::net::{IpAddr, IpNet, SocketAddr};
use crate::state::INITIAL_PERMITS;
use crate::url::{is_url, url_parts};
use vstd::prelude::*;

verus! {

/// Why settings are refused.
#[derive(Clone, Copy, Debug, PartialEq, Eq, Structural)]
pub enum ConfigError {
    InvalidTopKPercent(Double),
    InvalidNSubnets,
    InvalidMIps,
    InvalidStaggeredDelay,
    InvalidTargetPort,
    EmptyCidrList,
    EmptyTraceUrl,
    InvalidTraceUrl,
    EmptyIpStoreFile,
    InvalidAsnUrl,
    InvalidInitialScanMask,
    InvalidPromisingSubnetPercent(Double),
    InvalidBgScanInterval,
    InvalidBgScanConcurrency,
    InvalidPoolMinIdle,
    InvalidPoolMaxIdle,
    InvalidPoolRefillInterval,
    InvalidBaseScore(Single),
    InvalidPenalty(Single),
}

/// Whether a number is at least zero.
pub open spec fn non_negative(x: Single) -> bool {
    !x.is_nan_spec() && x.numeric_rank() >= 0
}

/// The bits of the number one.
pub const ONE_BITS: u64 = 0x3FF0_0000_0000_0000;

/// Scanning again and again while forwarding.
#[derive(Clone, Copy, Debug, PartialEq, Eq, Structural)]
pub struct BackgroundScanConfig {
    pub enabled: bool,
    /// Seconds between two scans.
    pub interval_secs: u64,
    /// How many addresses are probed at once.
    pub concurrency: usize,
}

/// The seconds between two scans, where nothing is set.
pub fn default_bg_scan_interval() -> (v: u64)
    ensures
        v == 3600,
{
    3600
}

/// How many addresses a background scan probes at once, where nothing is set.
pub fn default_bg_scan_concurrency() -> (v: usize)
    ensures
        v == 100,
{
    100
}

impl Default for BackgroundScanConfig {
    fn default() -> (r: Self)
        ensures
            !r.enabled,
            r.interval_secs == 3600,
            r.concurrency == 100,
    {
        BackgroundScanConfig {
            enabled: false,
            interval_secs: default_bg_scan_interval(),
            concurrency: default_bg_scan_concurrency(),
        }
    }
}

impl BackgroundScanConfig {
    pub open spec fn first_error(self) -> Option<ConfigError> {
        if !self.enabled {
            None
        } else if self.interval_secs < 60 {
            Some(ConfigError::InvalidBgScanInterval)
        } else if self.concurrency == 0 {
            Some(ConfigError::InvalidBgScanConcurrency)
        } else {
            None
        }
    }

    /// Refuses an interval under a minute and a concurrency of zero, where
    /// background scans are on.
    pub fn validate(&self) -> (r: Result<(), ConfigError>)
        ensures
            r == refuse_if(self.first_error()),
    {
        if !self.enabled {
            return Ok(());
        }
        if self.interval_secs < 60 {
            return Err(ConfigError::InvalidBgScanInterval);
        }
        if self.concurrency == 0 {
            return Err(ConfigError::InvalidBgScanConcurrency);
        }
        Ok(())
    }
}

/// Success where there is no error.
pub open spec fn refuse_if(error: Option<ConfigError>) -> Result<(), ConfigError> {
    match error {
        Some(e) => Err(e),
        None => Ok(()),
    }
}

/// How the networks are scanned.
#[derive(Clone, Copy, Debug, PartialEq, Eq, Structural)]
pub enum ScanStrategyType {
    /// Every network at once.
    FullScan,
    /// Sparsely first, then the promising networks closely.
    Adaptive,
}

impl Default for ScanStrategyType {
    fn default() -> (r: Self)
        ensures
            r == ScanStrategyType::FullScan,
    {
        ScanStrategyType::FullScan
    }
}

/// How the networks are scanned, in detail.
#[derive(Clone, Copy, Debug, PartialEq, Eq, Structural)]
pub struct ScanStrategyConfig {
    pub strategy_type: ScanStrategyType,
    /// The prefix length of the sparse scan.
    pub initial_scan_mask: u8,
    /// Samples a network in the sparse scan.
    pub initial_samples_per_subnet: usize,
    /// The part of the networks that counts as promising.
    pub promising_subnet_percent: Double,
    /// Samples a network in the close scan.
    pub focused_samples_per_subnet: usize,
}

/// The prefix length of the sparse scan, where nothing is set.
pub fn default_initial_scan_mask() -> (v: u8)
    ensures
        v == 20,
{
    20
}

/// The samples a network in the sparse scan, where nothing is set.
pub fn default_initial_samples_per_subnet() -> (v: usize)
    ensures
        v == 1,
{
    1
}

/// The part of the networks that counts as promising, where nothing is set: a
/// fifth.
pub fn default_promising_subnet_percent() -> (v: Double)
    ensures
        v == (Double { bits: 0x3FC9_9999_9999_999A }),
{
    Double { bits: 0x3FC9_9999_9999_999A }
}

/// The samples a network in the close scan, where nothing is set.
pub fn default_focused_samples_per_subnet() -> (v: usize)
    ensures
        v == 3,
{
    3
}

impl Default for ScanStrategyConfig {
    fn default() -> (r: Self)
        ensures
            r.strategy_type == ScanStrategyType::FullScan,
            r.initial_scan_mask == 20,
            r.initial_samples_per_subnet == 1,
            r.promising_subnet_percent == (Double { bits: 0x3FC9_9999_9999_999A }),
            r.focused_samples_per_subnet == 3,
    {
        ScanStrategyConfig {
            strategy_type: ScanStrategyType::FullScan,
            initial_scan_mask: default_initial_scan_mask(),
            initial_samples_per_subnet: default_initial_samples_per_subnet(),
            promising_subnet_percent: default_promising_subnet_percent(),
            focused_samples_per_subnet: default_focused_samples_per_subnet(),
        }
    }
}

impl ScanStrategyConfig {
    pub open spec fn first_error(self) -> Option<ConfigError> {
        if self.strategy_type == ScanStrategyType::FullScan {
            None
        } else if !(8 <= self.initial_scan_mask <= 32) {
            Some(ConfigError::InvalidInitialScanMask)
        } else if self.promising_subnet_percent.at_most_spec(Double { bits: 0 }) || (Double {
            bits: ONE_BITS,
        }).at_most_spec(self.promising_subnet_percent) {
            Some(ConfigError::InvalidPromisingSubnetPercent(self.promising_subnet_percent))
        } else {
            None
        }
    }

    /// Refuses a prefix length outside 8 to 32 and a part that is not strictly
    /// between none and all, where the scan is adaptive.
    pub fn validate(&self) -> (r: Result<(), ConfigError>)
        ensures
            r == refuse_if(self.first_error()),
    {
        if self.strategy_type == ScanStrategyType::Adaptive {
            if self.initial_scan_mask < 8 || self.initial_scan_mask > 32 {
                return Err(ConfigError::InvalidInitialScanMask);
            }
            if self.promising_subnet_percent.at_most(Double { bits: 0 }) || (Double {
                bits: ONE_BITS,
            }).at_most(self.promising_subnet_percent) {
                return Err(
                    ConfigError::InvalidPromisingSubnetPercent(self.promising_subnet_percent),
                );
            }
        }
        Ok(())
    }
}

/// Connections that are made before they are needed.
#[derive(Clone, Copy, Debug, PartialEq, Eq, Structural)]
pub struct ConnectionPoolConfig {
    pub enabled: bool,
    /// How many connections are kept at most.
    pub pool_size: usize,
    /// How many connections are kept at least.
    pub min_idle: usize,
    /// Seconds after which a connection is given up.
    pub max_idle_secs: u64,
    /// Milliseconds between two rounds of cleaning and refilling.
    pub refill_interval_ms: u64,
}

impl Default for ConnectionPoolConfig {
    fn default() -> (r: Self)
        ensures
            !r.enabled,
            r.pool_size == 8,
            r.min_idle == 2,
            r.max_idle_secs == 12,
            r.refill_interval_ms == 5000,
    {
        ConnectionPoolConfig {
            enabled: false,
            pool_size: 8,
            min_idle: 2,
            max_idle_secs: 12,
            refill_interval_ms: 5000,
        }
    }
}

impl ConnectionPoolConfig {
    pub open spec fn first_error(self) -> Option<ConfigError> {
        if !self.enabled {
            None
        } else if self.min_idle > self.pool_size {
            Some(ConfigError::InvalidPoolMinIdle)
        } else if self.max_idle_secs < 5 {
            Some(ConfigError::InvalidPoolMaxIdle)
        } else if self.refill_interval_ms < 100 {
            Some(ConfigError::InvalidPoolRefillInterval)
        } else {
            None
        }
    }

    /// Refuses a pool that is to hold more than it can, an idle time under five
    /// seconds and an interval under a tenth of a second, where the pool is on.
    pub fn validate(&self) -> (r: Result<(), ConfigError>)
        ensures
            r == refuse_if(self.first_error()),
    {
        if !self.enabled {
            return Ok(());
        }
        if self.min_idle > self.pool_size {
            return Err(ConfigError::InvalidPoolMinIdle);
        }
        if self.max_idle_secs < 5 {
            return Err(ConfigError::InvalidPoolMaxIdle);
        }
        if self.refill_interval_ms < 100 {
            return Err(ConfigError::InvalidPoolRefillInterval);
        }
        Ok(())
    }
}

/// How long a connection is idle before it is probed, and how often then.
#[derive(Clone, Copy, Debug, PartialEq, Eq, Structural)]
pub struct TcpKeepaliveConfig {
    pub time_secs: u64,
    pub interval_secs: u64,
}

impl Default for TcpKeepaliveConfig {
    fn default() -> (r: Self)
        ensures
            r.time_secs == 60,
            r.interval_secs == 10,
    {
        TcpKeepaliveConfig { time_secs: 60, interval_secs: 10 }
    }
}

/// How latency, jitter and loss lower a score.
#[derive(Clone, Copy, Debug, PartialEq, Eq, Structural)]
pub struct ScoringConfig {
    pub base_score: Single,
    pub latency_penalty_per_10ms: Single,
    pub jitter_penalty_per_5ms: Single,
    pub loss_penalty_per_percent: Single,
}

impl Default for ScoringConfig {
    /// A hundred, one, one and fifty.
    fn default() -> (r: Self)
        ensures
            r.base_score == (Single { bits: 0x42C8_0000 }),
            r.latency_penalty_per_10ms == (Single { bits: 0x3F80_0000 }),
            r.jitter_penalty_per_5ms == (Single { bits: 0x3F80_0000 }),
            r.loss_penalty_per_percent == (Single { bits: 0x4248_0000 }),
    {
        ScoringConfig {
            base_score: Single { bits: 0x42C8_0000 },
            latency_penalty_per_10ms: Single { bits: 0x3F80_0000 },
            jitter_penalty_per_5ms: Single { bits: 0x3F80_0000 },
            loss_penalty_per_percent: Single { bits: 0x4248_0000 },
        }
    }
}

impl ScoringConfig {
    pub open spec fn first_error(self) -> Option<ConfigError> {
        if !((Single { bits: 0 }).below_spec(self.base_score)) {
            Some(ConfigError::InvalidBaseScore(self.base_score))
        } else if !non_negative(self.latency_penalty_per_10ms) {
            Some(ConfigError::InvalidPenalty(self.latency_penalty_per_10ms))
        } else if !non_negative(self.jitter_penalty_per_5ms) {
            Some(ConfigError::InvalidPenalty(self.jitter_penalty_per_5ms))
        } else if !non_negative(self.loss_penalty_per_percent) {
            Some(ConfigError::InvalidPenalty(self.loss_penalty_per_percent))
        } else {
            None
        }
    }

    /// Refuses a base score that is not positive, and a negative penalty.
    pub fn validate(&self) -> (r: Result<(), ConfigError>)
        ensures
            r == refuse_if(self.first_error()),
    {
        let zero: Single = Single { bits: 0 };
        if !zero.below(self.base_score) {
            return Err(ConfigError::InvalidBaseScore(self.base_score));
        }
        if !self.latency_penalty_per_10ms.at_least(zero) {
            return Err(ConfigError::InvalidPenalty(self.latency_penalty_per_10ms));
        }
        if !self.jitter_penalty_per_5ms.at_least(zero) {
            return Err(ConfigError::InvalidPenalty(self.jitter_penalty_per_5ms));
        }
        if !self.loss_penalty_per_percent.at_least(zero) {
            return Err(ConfigError::InvalidPenalty(self.loss_penalty_per_percent));
        }
        Ok(())
    }
}

/// All settings.
#[derive(Debug)]
pub struct AppConfig {
    /// The port to forward to.
    pub target_port: u16,
    /// The data centres to forward to; with none, all.
    pub target_colos: Vec<String>,
    /// The networks to scan.
    pub cidr_list: Vec<IpNet>,
    /// Where connections are accepted.
    pub bind_addr: SocketAddr,
    /// Where the status is served.
    pub web_addr: SocketAddr,
    /// What probes ask for.
    pub trace_url: String,
    /// Where newer networks to scan are listed.
    pub asn_url: String,
    /// Where the results of scans are kept.
    pub ip_store_file: String,
    /// The part of the networks, by score, that is forwarded to.
    pub selection_top_k_percent: Double,
    /// Networks tried for a connection.
    pub selection_random_n_subnets: usize,
    /// Addresses of each network tried for a connection.
    pub selection_random_m_ips: usize,
    /// Milliseconds between the starts of two attempts to connect.
    pub staggered_delay_ms: u64,
    /// Files that may be open at once.
    pub max_open_files: usize,
    /// Seconds after which a network is forgotten; with zero never.
    pub subnet_ttl_secs: u64,
    /// How many networks are remembered.
    pub max_subnets: usize,
    pub scan_strategy: ScanStrategyConfig,
    pub background_scan: BackgroundScanConfig,
    pub connection_pool: ConnectionPoolConfig,
    pub tcp_keepalive: TcpKeepaliveConfig,
    pub scoring: ScoringConfig,
}

/// The part of the networks that is forwarded to, where nothing is set: a
/// tenth.
pub fn default_top_k_percent() -> (v: Double)
    ensures
        v == (Double { bits: 0x3FB9_9999_9999_999A }),
{
    Double { bits: 0x3FB9_9999_9999_999A }
}

/// The networks tried for a connection, where nothing is set.
pub fn default_n_subnets() -> (v: usize)
    ensures
        v == 3,
{
    3
}

/// The addresses of each network tried for a connection, where nothing is set.
pub fn default_m_ips() -> (v: usize)
    ensures
        v == 2,
{
    2
}

/// The milliseconds between the starts of two attempts to connect, where
/// nothing is set.
pub fn default_staggered_delay_ms() -> (v: u64)
    ensures
        v == 200,
{
    200
}

impl AppConfig {
    /// Whether these are the settings that hold where nothing is set.
    pub open spec fn is_default(self) -> bool {
        &&& self.target_port == 443
        &&& self.target_colos@.len() == 2
        &&& self.target_colos@[0]@ == "SJC"@
        &&& self.target_colos@[1]@ == "LAX"@
        &&& self.cidr_list@ == seq![
            IpNet::V4 { addr: 0x6810_0000, prefix_len: 12 },
            IpNet::V4 { addr: 0xAC40_0000, prefix_len: 13 },
        ]
        &&& self.bind_addr == (SocketAddr { ip: IpAddr::V4(0), port: 8080 })
        &&& self.web_addr == (SocketAddr { ip: IpAddr::V4(0), port: 3000 })
        &&& self.trace_url@ == "http://engage.cloudflareclient.com/cdn-cgi/trace"@
        &&& self.asn_url@ == "https://asn.0x01111110.com/13335?4"@
        &&& self.ip_store_file@ == "subnet_results.json"@
        &&& self.selection_top_k_percent == (Double { bits: 0x3FB9_9999_9999_999A })
        &&& self.selection_random_n_subnets == 3
        &&& self.selection_random_m_ips == 2
        &&& self.staggered_delay_ms == 200
        &&& self.max_open_files == INITIAL_PERMITS
        &&& self.subnet_ttl_secs == 0
        &&& self.max_subnets == usize::MAX
        &&& self.scan_strategy == (ScanStrategyConfig {
            strategy_type: ScanStrategyType::FullScan,
            initial_scan_mask: 20,
            initial_samples_per_subnet: 1,
            promising_subnet_percent: Double { bits: 0x3FC9_9999_9999_999A },
            focused_samples_per_subnet: 3,
        })
        &&& self.background_scan == (BackgroundScanConfig {
            enabled: false,
            interval_secs: 3600,
            concurrency: 100,
        })
        &&& self.connection_pool == (ConnectionPoolConfig {
            enabled: false,
            pool_size: 8,
            min_idle: 2,
            max_idle_secs: 12,
            refill_interval_ms: 5000,
        })
        &&& self.tcp_keepalive == (TcpKeepaliveConfig { time_secs: 60, interval_secs: 10 })
        &&& self.scoring == (ScoringConfig {
            base_score: Single { bits: 0x42C8_0000 },
            latency_penalty_per_10ms: Single { bits: 0x3F80_0000 },
            jitter_penalty_per_5ms: Single { bits: 0x3F80_0000 },
            loss_penalty_per_percent: Single { bits: 0x4248_0000 },
        })
    }
}

impl Default for AppConfig {
    fn default() -> (r: Self)
        ensures
            r.is_default(),
            url_parts(r.trace_url@) is Some && url_parts(r.asn_url@) is Some
                ==> r.first_error() is None,
    {
        proof {
            reveal_strlit("http://engage.cloudflareclient.com/cdn-cgi/trace");
            reveal_strlit("subnet_results.json");
        }
        let mut target_colos: Vec<String> = Vec::new();
        target_colos.push("SJC".to_string());
        target_colos.push("LAX".to_string());
        let mut cidr_list: Vec<IpNet> = Vec::new();
        cidr_list.push(IpNet::V4 { addr: 0x6810_0000, prefix_len: 12 });
        cidr_list.push(IpNet::V4 { addr: 0xAC40_0000, prefix_len: 13 });
        assert(cidr_list@ =~= seq![
            IpNet::V4 { addr: 0x6810_0000, prefix_len: 12 },
            IpNet::V4 { addr: 0xAC40_0000, prefix_len: 13 },
        ]);
        AppConfig {
            target_port: 443,
            target_colos,
            cidr_list,
            bind_addr: SocketAddr { ip: IpAddr::V4(0), port: 8080 },
            web_addr: SocketAddr { ip: IpAddr::V4(0), port: 3000 },
            trace_url: "http://engage.cloudflareclient.com/cdn-cgi/trace".to_string(),
            asn_url: "https://asn.0x01111110.com/13335?4".to_string(),
            ip_store_file: "subnet_results.json".to_string(),
            selection_top_k_percent: default_top_k_percent(),
            selection_random_n_subnets: default_n_subnets(),
            selection_random_m_ips: default_m_ips(),
            staggered_delay_ms: default_staggered_delay_ms(),
            max_open_files: INITIAL_PERMITS,
            subnet_ttl_secs: 0,
            max_subnets: usize::MAX,
            scan_strategy: ScanStrategyConfig::default(),
            background_scan: BackgroundScanConfig::default(),
            connection_pool: ConnectionPoolConfig::default(),
            tcp_keepalive: TcpKeepaliveConfig::default(),
            scoring: ScoringConfig::default(),
        }
    }
}

impl AppConfig {
    /// What is wrong with the settings, in the order in which it is looked
    /// for; `trace_ok` and `asn_ok` say whether the two addresses are URLs.
    pub open spec fn first_error_given(self, trace_ok: bool, asn_ok: bool) -> Option<ConfigError> {
        if self.target_port == 0 {
            Some(ConfigError::InvalidTargetPort)
        } else if self.selection_top_k_percent.at_most_spec(Double { bits: 0 }) || (Double {
            bits: ONE_BITS,
        }).below_spec(self.selection_top_k_percent) {
            Some(ConfigError::InvalidTopKPercent(self.selection_top_k_percent))
        } else if self.selection_random_n_subnets == 0 {
            Some(ConfigError::InvalidNSubnets)
        } else if self.selection_random_m_ips == 0 {
            Some(ConfigError::InvalidMIps)
        } else if !(10 <= self.staggered_delay_ms <= 2000) {
            Some(ConfigError::InvalidStaggeredDelay)
        } else if self.cidr_list@.len() == 0 {
            Some(ConfigError::EmptyCidrList)
        } else if self.trace_url@.len() == 0 {
            Some(ConfigError::EmptyTraceUrl)
        } else if !trace_ok {
            Some(ConfigError::InvalidTraceUrl)
        } else if self.ip_store_file@.len() == 0 {
            Some(ConfigError::EmptyIpStoreFile)
        } else if self.asn_url@.len() > 0 && !asn_ok {
            Some(ConfigError::InvalidAsnUrl)
        } else if self.scan_strategy.first_error() is Some {
            self.scan_strategy.first_error()
        } else if self.background_scan.first_error() is Some {
            self.background_scan.first_error()
        } else if self.connection_pool.first_error() is Some {
            self.connection_pool.first_error()
        } else {
            self.scoring.first_error()
        }
    }

    /// What is wrong with the settings.
    pub open spec fn first_error(self) -> Option<ConfigError> {
        self.first_error_given(
            url_parts(self.trace_url@) is Some,
            url_parts(self.asn_url@) is Some,
        )
    }

    /// Refuses settings that make no sense, given whether the two addresses are
    /// URLs.
    pub fn validate_given(&self, trace_ok: bool, asn_ok: bool) -> (r: Result<(), ConfigError>)
        ensures
            r == refuse_if(self.first_error_given(trace_ok, asn_ok)),
    {
        if self.target_port == 0 {
            return Err(ConfigError::InvalidTargetPort);
        }
        if self.selection_top_k_percent.at_most(Double { bits: 0 }) || (Double {
            bits: ONE_BITS,
        }).below(self.selection_top_k_percent) {
            return Err(ConfigError::InvalidTopKPercent(self.selection_top_k_percent));
        }
        if self.selection_random_n_subnets == 0 {
            return Err(ConfigError::InvalidNSubnets);
        }
        if self.selection_random_m_ips == 0 {
            return Err(ConfigError::InvalidMIps);
        }
        if self.staggered_delay_ms < 10 || self.staggered_delay_ms > 2000 {
            return Err(ConfigError::InvalidStaggeredDelay);
        }
        if self.cidr_list.len() == 0 {
            return Err(ConfigError::EmptyCidrList);
        }
        if self.trace_url.as_str().unicode_len() == 0 {
            return Err(ConfigError::EmptyTraceUrl);
        }
        if !trace_ok {
            return Err(ConfigError::InvalidTraceUrl);
        }
        if self.ip_store_file.as_str().unicode_len() == 0 {
            return Err(ConfigError::EmptyIpStoreFile);
        }
        if self.asn_url.as_str().unicode_len() > 0 && !asn_ok {
            return Err(ConfigError::InvalidAsnUrl);
        }
        self.scan_strategy.validate()?;
        self.background_scan.validate()?;
        self.connection_pool.validate()?;
        self.scoring.validate()
    }

    /// Refuses settings that make no sense.
    pub fn validate(&self) -> (r: Result<(), ConfigError>)
        ensures
            r == refuse_if(self.first_error()),
    {
        self.validate_given(is_url(self.trace_url.as_str()), is_url(self.asn_url.as_str()))
    }
}

/// How the forwarder starts.
#[derive(Debug)]
pub enum Startup {
    /// With the settings that were read.
    Configured(AppConfig),
    /// With the default settings, since there are none.
    Defaults(AppConfig),
    /// Not at all, since what is set is no settings.
    Malformed,
    /// Not at all, since the settings make no sense.
    Refused(ConfigError),
}

/// What came of reading the settings.
#[derive(Debug)]
pub enum SettingsRead {
    /// There is no file with settings.
    Missing,
    /// The file holds something else: it has no such form, or a value is of the
    /// wrong kind or out of range.
    Malformed,
    Settings(AppConfig),
}

/// Decides how to start. Without settings the defaults are used; settings that
/// are there have to be right.
pub fn decide_startup(read: SettingsRead) -> (s: Startup)
    ensures
        match read {
            SettingsRead::Missing => s matches Startup::Defaults(config) && config.is_default(),
            SettingsRead::Malformed => s is Malformed,
            SettingsRead::Settings(config) => match config.first_error() {
                None => s == Startup::Configured(config),
                Some(e) => s == Startup::Refused(e),
            },
        },
{
    match read {
        SettingsRead::Missing => Startup::Defaults(AppConfig::default()),
        SettingsRead::Malformed => Startup::Malformed,
        SettingsRead::Settings(config) => match config.validate() {
            Ok(()) => Startup::Configured(config),
            Err(e) => Startup::Refused(e),
        },
    }
}

/// Scans in the background are accepted if and only if they are off, or at least
/// a minute apart and with at least one address at once.
pub proof fn background_scans_are_a_minute_apart(config: BackgroundScanConfig)
    ensures
        config.first_error() is None <==> !config.enabled || (config.interval_secs >= 60
            && config.concurrency >= 1),
        config.first_error() == Some(ConfigError::InvalidBgScanInterval) <==> config.enabled
            && config.interval_secs < 60,
        config.first_error() == Some(ConfigError::InvalidBgScanConcurrency) <==> config.enabled
            && config.interval_secs >= 60 && config.concurrency == 0,
{
}

/// A full scan is accepted however it is set. An adaptive one needs a mask from
/// eight to thirty-two and a part that is above zero and below one; what is no
/// number is not told from such a part.
pub proof fn adaptive_scans_need_a_part(config: ScanStrategyConfig)
    ensures
        config.strategy_type == ScanStrategyType::FullScan ==> config.first_error() is None,
        config.strategy_type == ScanStrategyType::Adaptive ==> {
            let mask = config.initial_scan_mask;
            let part = config.promising_subnet_percent;
            let between = 0 < part.bits < 0x3FF0_0000_0000_0000 || part.is_nan_spec();
            &&& config.first_error() is None <==> mask >= 8 && mask <= 32 && between
            &&& config.first_error() == Some(ConfigError::InvalidInitialScanMask) <==> mask < 8
                || mask > 32
            &&& config.first_error() == Some(ConfigError::InvalidPromisingSubnetPercent(part))
                <==> mask >= 8 && mask <= 32 && !between
        },
{
}

/// A pool is accepted if and only if it is off, or keeps no more at least than
/// at most, keeps connections for five seconds or more, and is looked after
/// every tenth of a second or less often.
pub proof fn pools_keep_connections_a_while(config: ConnectionPoolConfig)
    ensures
        config.first_error() is None <==> !config.enabled || (config.min_idle <= config.pool_size
            && config.max_idle_secs >= 5 && config.refill_interval_ms >= 100),
        config.first_error() == Some(ConfigError::InvalidPoolMinIdle) <==> config.enabled
            && config.min_idle > config.pool_size,
        config.first_error() == Some(ConfigError::InvalidPoolMaxIdle) <==> config.enabled
            && config.min_idle <= config.pool_size && config.max_idle_secs < 5,
        config.first_error() == Some(ConfigError::InvalidPoolRefillInterval) <==> config.enabled
            && config.min_idle <= config.pool_size && config.max_idle_secs >= 5
            && config.refill_interval_ms < 100,
{
}

/// Whether a pattern is that of zero, with or without a sign, or of what is
/// above zero.
pub open spec fn not_below_zero(x: Single) -> bool {
    x.bits <= 0x7F80_0000 || x.bits == 0x8000_0000
}

/// Scores are accepted if and only if they start above zero and no penalty is
/// below zero. What is refused first is told.
pub proof fn scores_start_above_zero(config: ScoringConfig)
    ensures
        ({
            let base = 0 < config.base_score.bits <= 0x7F80_0000;
            let latency = not_below_zero(config.latency_penalty_per_10ms);
            let jitter = not_below_zero(config.jitter_penalty_per_5ms);
            let loss = not_below_zero(config.loss_penalty_per_percent);
            &&& config.first_error() is None <==> base && latency && jitter && loss
            &&& !base <==> config.first_error() == Some(
                ConfigError::InvalidBaseScore(config.base_score),
            )
            &&& base && !latency ==> config.first_error() == Some(
                ConfigError::InvalidPenalty(config.latency_penalty_per_10ms),
            )
            &&& base && latency && !jitter ==> config.first_error() == Some(
                ConfigError::InvalidPenalty(config.jitter_penalty_per_5ms),
            )
            &&& base && latency && jitter && !loss ==> config.first_error() == Some(
                ConfigError::InvalidPenalty(config.loss_penalty_per_percent),
            )
        }),
{
}

/// Settings are accepted if and only if every one of them is: there is a port, a
/// part of the networks above zero and at most one (what is no number is not
/// told from one), at least one network and address, a delay from ten
/// milliseconds to two seconds, something to scan, an address to ask that is
/// one, a file, an address of lists that is one or none, and each section.
pub proof fn settings_are_accepted_together(config: AppConfig, trace_ok: bool, asn_ok: bool)
    ensures
        ({
            let part = config.selection_top_k_percent;
            config.first_error_given(trace_ok, asn_ok) is None <==> {
                &&& config.target_port >= 1
                &&& 0 < part.bits <= 0x3FF0_0000_0000_0000 || part.is_nan_spec()
                &&& config.selection_random_n_subnets >= 1
                &&& config.selection_random_m_ips >= 1
                &&& config.staggered_delay_ms >= 10
                &&& config.staggered_delay_ms <= 2000
                &&& config.cidr_list@.len() >= 1
                &&& config.trace_url@.len() >= 1
                &&& trace_ok
                &&& config.ip_store_file@.len() >= 1
                &&& config.asn_url@.len() == 0 || asn_ok
                &&& config.scan_strategy.first_error() is None
                &&& config.background_scan.first_error() is None
                &&& config.connection_pool.first_error() is None
                &&& config.scoring.first_error() is None
            }
        }),
{
}

/// An error tells what is wrong: where it names a setting, this setting is at
/// fault and those that are looked at before it are not.
pub proof fn errors_name_the_first_fault(config: AppConfig, trace_ok: bool, asn_ok: bool)
    ensures
        ({
            let error = config.first_error_given(trace_ok, asn_ok);
            let part = config.selection_top_k_percent;
            let delay = config.staggered_delay_ms;
            let port_fits = config.target_port != 0;
            let part_fits = port_fits && (0 < part.bits <= 0x3FF0_0000_0000_0000
                || part.is_nan_spec());
            let n_fits = part_fits && config.selection_random_n_subnets > 0;
            let m_fits = n_fits && config.selection_random_m_ips > 0;
            let delay_fits = m_fits && delay >= 10 && delay <= 2000;
            let list_fits = delay_fits && config.cidr_list@.len() > 0;
            let trace_there = list_fits && config.trace_url@.len() > 0;
            let trace_fits = trace_there && trace_ok;
            let file_fits = trace_fits && config.ip_store_file@.len() > 0;
            &&& !port_fits ==> error == Some(ConfigError::InvalidTargetPort)
            &&& port_fits && !part_fits ==> error == Some(ConfigError::InvalidTopKPercent(part))
            &&& part_fits && !n_fits ==> error == Some(ConfigError::InvalidNSubnets)
            &&& n_fits && !m_fits ==> error == Some(ConfigError::InvalidMIps)
            &&& m_fits && !delay_fits ==> error == Some(ConfigError::InvalidStaggeredDelay)
            &&& delay_fits && !list_fits ==> error == Some(ConfigError::EmptyCidrList)
            &&& list_fits && !trace_there ==> error == Some(ConfigError::EmptyTraceUrl)
            &&& trace_there && !trace_fits ==> error == Some(ConfigError::InvalidTraceUrl)
            &&& trace_fits && !file_fits ==> error == Some(ConfigError::EmptyIpStoreFile)
            &&& file_fits && config.asn_url@.len() > 0 && !asn_ok ==> error == Some(
                ConfigError::InvalidAsnUrl,
            )
        }),
{
}

} // verus!
