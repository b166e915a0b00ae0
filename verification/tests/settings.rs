use tcp_forwarder::cli::{parse_args, run_mode, CliArgs, RunMode};
use tcp_forwarder::config::{
    decide_startup, AppConfig, BackgroundScanConfig, ConfigError, ConnectionPoolConfig,
    ScanStrategyType, ScoringConfig, SettingsRead, Startup,
};
use tcp_forwarder::float_bits::{Double, Single};
use tcp_forwarder::jsonc::strip_comments;
use tcp_forwarder::net::parse_ipnet;
use tcp_forwarder::text::{has_char, lines, parse_unsigned, split, string_of, trim};
use tcp_forwarder::time::{elapsed, Duration};

fn double(value: f64) -> Double {
    Double { bits: value.to_bits() }
}

fn single(value: f32) -> Single {
    Single { bits: value.to_bits() }
}

fn strings(list: &[&str]) -> Vec<String> {
    list.iter().map(|s| s.to_string()).collect()
}

fn error_of(change: fn(&mut AppConfig)) -> ConfigError {
    let mut config = AppConfig::default();
    change(&mut config);
    config.validate().unwrap_err()
}

#[test]
fn test_default_config_is_valid() {
    let config = AppConfig::default();
    assert!(config.validate().is_ok());
}

#[test]
fn test_invalid_top_k_percent() {
    let mut config = AppConfig::default();
    config.selection_top_k_percent = double(1.5);
    assert!(config.validate().is_err());

    config.selection_top_k_percent = double(0.0);
    assert!(config.validate().is_err());

    config.selection_top_k_percent = double(-0.1);
    assert!(config.validate().is_err());
}

#[test]
fn test_invalid_n_subnets() {
    let mut config = AppConfig::default();
    config.selection_random_n_subnets = 0;
    assert!(config.validate().is_err());
}

#[test]
fn test_invalid_m_ips() {
    let mut config = AppConfig::default();
    config.selection_random_m_ips = 0;
    assert!(config.validate().is_err());
}

#[test]
fn test_adaptive_scan_config_validation() {
    let mut config = AppConfig::default();
    config.scan_strategy.strategy_type = ScanStrategyType::Adaptive;

    config.scan_strategy.initial_scan_mask = 20;
    config.scan_strategy.promising_subnet_percent = double(0.2);
    assert!(config.validate().is_ok());

    config.scan_strategy.initial_scan_mask = 7;
    assert!(config.validate().is_err());
    config.scan_strategy.initial_scan_mask = 33;
    assert!(config.validate().is_err());
    config.scan_strategy.initial_scan_mask = 20;

    config.scan_strategy.promising_subnet_percent = double(0.0);
    assert!(config.validate().is_err());
    config.scan_strategy.promising_subnet_percent = double(1.0);
    assert!(config.validate().is_err());
}

#[test]
fn test_background_scan_config_validation() {
    let mut config = AppConfig::default();

    config.background_scan.enabled = false;
    config.background_scan.interval_secs = 0;
    assert!(config.validate().is_ok());

    config.background_scan.enabled = true;
    config.background_scan.interval_secs = 59;
    config.background_scan.concurrency = 100;
    assert!(config.validate().is_err());

    config.background_scan.interval_secs = 60;
    assert!(config.validate().is_ok());

    config.background_scan.concurrency = 0;
    assert!(config.validate().is_err());
}

#[test]
fn default_settings() {
    let config = AppConfig::default();
    assert_eq!(config.target_port, 443);
    assert_eq!(config.target_colos, strings(&["SJC", "LAX"]));
    assert_eq!(
        config.cidr_list,
        vec![parse_ipnet("104.16.0.0/12").unwrap(), parse_ipnet("172.64.0.0/13").unwrap()]
    );
    assert_eq!(config.bind_addr.port, 8080);
    assert_eq!(config.web_addr.port, 3000);
    assert_eq!(config.selection_top_k_percent, double(0.1));
    assert_eq!(config.scan_strategy.promising_subnet_percent, double(0.2));
    assert_eq!(config.scoring.base_score, single(100.0));
    assert_eq!(config.scoring.latency_penalty_per_10ms, single(1.0));
    assert_eq!(config.scoring.jitter_penalty_per_5ms, single(1.0));
    assert_eq!(config.scoring.loss_penalty_per_percent, single(50.0));
    assert_eq!(config.staggered_delay_ms, 200);
    assert_eq!(
        config.background_scan,
        BackgroundScanConfig { enabled: false, interval_secs: 3600, concurrency: 100 }
    );
    assert_eq!(
        config.connection_pool,
        ConnectionPoolConfig {
            enabled: false,
            pool_size: 8,
            min_idle: 2,
            max_idle_secs: 12,
            refill_interval_ms: 5000,
        }
    );
}

#[test]
fn every_mistake_is_named() {
    assert_eq!(error_of(|c| c.target_port = 0), ConfigError::InvalidTargetPort);
    assert_eq!(
        error_of(|c| c.selection_top_k_percent = double(1.5)),
        ConfigError::InvalidTopKPercent(double(1.5))
    );
    assert_eq!(error_of(|c| c.selection_random_n_subnets = 0), ConfigError::InvalidNSubnets);
    assert_eq!(error_of(|c| c.selection_random_m_ips = 0), ConfigError::InvalidMIps);
    assert_eq!(error_of(|c| c.staggered_delay_ms = 9), ConfigError::InvalidStaggeredDelay);
    assert_eq!(error_of(|c| c.staggered_delay_ms = 2001), ConfigError::InvalidStaggeredDelay);
    assert_eq!(error_of(|c| c.cidr_list.clear()), ConfigError::EmptyCidrList);
    assert_eq!(error_of(|c| c.trace_url.clear()), ConfigError::EmptyTraceUrl);
    assert_eq!(error_of(|c| c.trace_url = "x y".to_string()), ConfigError::InvalidTraceUrl);
    assert_eq!(error_of(|c| c.ip_store_file.clear()), ConfigError::EmptyIpStoreFile);
    assert_eq!(error_of(|c| c.asn_url = "nowhere".to_string()), ConfigError::InvalidAsnUrl);
    assert_eq!(
        error_of(|c| {
            c.scan_strategy.strategy_type = ScanStrategyType::Adaptive;
            c.scan_strategy.initial_scan_mask = 7;
        }),
        ConfigError::InvalidInitialScanMask
    );
    assert_eq!(
        error_of(|c| {
            c.scan_strategy.strategy_type = ScanStrategyType::Adaptive;
            c.scan_strategy.promising_subnet_percent = double(1.0);
        }),
        ConfigError::InvalidPromisingSubnetPercent(double(1.0))
    );
    assert_eq!(
        error_of(|c| {
            c.background_scan.enabled = true;
            c.background_scan.interval_secs = 59;
        }),
        ConfigError::InvalidBgScanInterval
    );
    assert_eq!(
        error_of(|c| {
            c.background_scan.enabled = true;
            c.background_scan.concurrency = 0;
        }),
        ConfigError::InvalidBgScanConcurrency
    );
}

#[test]
fn settings_of_the_pool_are_looked_at_where_it_is_on() {
    let good = ConnectionPoolConfig {
        enabled: true,
        pool_size: 4,
        min_idle: 2,
        max_idle_secs: 12,
        refill_interval_ms: 5000,
    };
    assert_eq!(good.validate(), Ok(()));
    let more = ConnectionPoolConfig { min_idle: 5, ..good };
    assert_eq!(more.validate(), Err(ConfigError::InvalidPoolMinIdle));
    let never = ConnectionPoolConfig { max_idle_secs: 0, ..good };
    assert_eq!(never.validate(), Err(ConfigError::InvalidPoolMaxIdle));
    let often = ConnectionPoolConfig { refill_interval_ms: 99, ..good };
    assert_eq!(often.validate(), Err(ConfigError::InvalidPoolRefillInterval));
    let off = ConnectionPoolConfig { enabled: false, min_idle: 5, ..good };
    assert_eq!(off.validate(), Ok(()));
}

#[test]
fn settings_of_the_score_are_looked_at() {
    let good = ScoringConfig::default();
    assert_eq!(good.validate(), Ok(()));
    let none = ScoringConfig { base_score: single(0.0), ..good };
    assert_eq!(none.validate(), Err(ConfigError::InvalidBaseScore(single(0.0))));
    let reward = ScoringConfig { jitter_penalty_per_5ms: single(-1.0), ..good };
    assert_eq!(reward.validate(), Err(ConfigError::InvalidPenalty(single(-1.0))));
}

#[test]
fn an_empty_list_address_is_fine() {
    let mut config = AppConfig::default();
    config.asn_url.clear();
    assert_eq!(config.validate(), Ok(()));
    assert_eq!(config.validate_given(false, false), Err(ConfigError::InvalidTraceUrl));
}

#[test]
fn bad_settings_refuse_the_start() {
    assert!(matches!(decide_startup(SettingsRead::Missing), Startup::Defaults(_)));
    assert!(matches!(decide_startup(SettingsRead::Malformed), Startup::Malformed));
    let mut config = AppConfig::default();
    config.target_port = 1;
    match decide_startup(SettingsRead::Settings(config)) {
        Startup::Configured(c) => assert_eq!(c.target_port, 1),
        other => panic!("{:?}", other),
    }
    let mut config = AppConfig::default();
    config.target_port = 0;
    assert!(matches!(
        decide_startup(SettingsRead::Settings(config)),
        Startup::Refused(ConfigError::InvalidTargetPort)
    ));
}

#[test]
fn arguments_are_read() {
    let (args, unknown) = parse_args(&strings(&["--scan", "--rank-colos"]));
    assert_eq!(args, CliArgs { scan: true, scan_on_start: false, rank_colos: true, help: false });
    assert!(unknown.is_empty());
    assert_eq!(run_mode(args), RunMode::Scan);
    let (args, unknown) = parse_args(&strings(&["--scan-on-start"]));
    assert!(unknown.is_empty());
    assert_eq!(run_mode(args), RunMode::Forward { scan_on_start: true });
    let (args, unknown) = parse_args(&strings(&["--rank-colos"]));
    assert!(unknown.is_empty());
    assert_eq!(run_mode(args), RunMode::RankColos);
    let (args, unknown) = parse_args(&strings(&["-x", "--scan", "y"]));
    assert_eq!(unknown, strings(&["-x", "y"]));
    assert_eq!(run_mode(args), RunMode::Help);
    let (args, _) = parse_args(&strings(&["-h"]));
    assert_eq!(run_mode(args), RunMode::Help);
    let (args, _) = parse_args(&strings(&[]));
    assert_eq!(run_mode(args), RunMode::Forward { scan_on_start: false });
}

#[test]
fn comments_are_blanked() {
    assert_eq!(strip_comments("{\"a\": 1} // x"), "{\"a\": 1}     ");
    assert_eq!(strip_comments("1/*2\n3*/4"), "1   \n   4");
    assert_eq!(strip_comments("// x\n1"), "    \n1");
}

#[test]
fn text_in_quotes_is_no_comment() {
    let url = "{\"u\": \"http://a/b\", \"q\": \"\\\"// x\"}";
    assert_eq!(strip_comments(url), url);
}

#[test]
fn blanking_twice_changes_nothing_more() {
    let text = "{ /* a */ \"k\": \"// v\", // b\n \"l\": 2 } /* c";
    let once = strip_comments(text);
    assert_eq!(once.chars().count(), text.chars().count());
    assert_eq!(strip_comments(&once), once);
}

#[test]
fn text_is_cut() {
    let chars: Vec<char> = "  a b\t".chars().collect();
    assert_eq!(string_of(&trim(&chars)), "a b");
    let parts: Vec<String> =
        split(&"a,,b".chars().collect(), ',').iter().map(|p| string_of(p)).collect();
    assert_eq!(parts, strings(&["a", "", "b"]));
    let cut: Vec<String> =
        lines(&"a\r\n\nb\n".chars().collect()).iter().map(|p| string_of(p)).collect();
    assert_eq!(cut, "a\r\n\nb\n".lines().map(|l| l.to_string()).collect::<Vec<String>>());
    assert!(has_char("a/b", '/'));
    assert!(!has_char("ab", '/'));
}

#[test]
fn numbers_are_read_as_std_reads_them() {
    for text in ["0", "65535", "65536", "+7", "-0", "", "+", "007", "1x", " 1", "99999999999999999999"] {
        let chars: Vec<char> = text.chars().collect();
        let expected = text.parse::<u16>().ok().map(|n| n as u64);
        assert_eq!(parse_unsigned(&chars, 65535), expected, "{}", text);
    }
}

#[test]
fn time_passes_forwards_only() {
    assert_eq!(elapsed(5, 9), Duration { nanos: 4 });
    assert_eq!(elapsed(9, 5), Duration { nanos: 0 });
    assert_eq!(Duration::from_secs(2), Duration { nanos: 2_000_000_000 });
    assert_eq!(Duration::from_millis(3), Duration { nanos: 3_000_000 });
}

#[test]
fn line_breaks_stay_where_they_are() {
    let text = "{ // one\n/* two\r\nthree */ \"a\": 1,\n\"b // c\": 2 } /* four";
    let blanked = strip_comments(text);
    let ends = |t: &str| -> Vec<usize> {
        t.chars().enumerate().filter(|(_, c)| *c == '\n').map(|(i, _)| i).collect()
    };
    assert_eq!(ends(&blanked), ends(text));
    assert_eq!(ends(&blanked).len(), 3);
}
