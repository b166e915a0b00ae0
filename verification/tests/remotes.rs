use tcp_forwarder::float_bits::Double;
use tcp_forwarder::forwarder::cli::{get_config_path, ConfigPath};
use tcp_forwarder::forwarder::config::{
    DynamicStrategyConfig, FileProviderConfig, InitialProbingConfig, LoggingConfig,
    PoolStrategyConfig, ProbingConfig, ProviderConfig, ScalingConfig, SelectorConfig,
    StaticStrategyConfig, SwitchingPolicyConfig,
};
use tcp_forwarder::forwarder::connection::{
    after_selection, keeps_waiting, on_accept, on_connect, on_connection_over, on_pool,
    on_transfer_end, ScoreEvent, SelectionStep,
};
use tcp_forwarder::forwarder::loadbalancer::{LoadBalanceAlgorithm, LoadBalancer, NoActiveIps};
use tcp_forwarder::forwarder::logging::{plan_logging, LogLevel, LogOutput};
use tcp_forwarder::forwarder::metrics::{
    record_active_ips, record_pool_size, register_metrics, Metric, MetricKind, MetricUpdate,
};
use tcp_forwarder::forwarder::pools::{
    decide_scaling, dynamic_fill_count, get_connection_from_pool, get_pool_statistics,
    health_check, plan_pools, pool_parameters, return_connection_to_pool, static_fill_count,
    PoolState, PoolStats, PooledConnection, ScalingStep,
};
use tcp_forwarder::forwarder::probing::{
    initial_timeout, plan_initial_probing, process_probe_result, select_probe_candidates,
    shows_details, shows_progress, InitialPlan, ProbeOutcome, ProbeTarget,
};
use tcp_forwarder::forwarder::remotes::{
    collect_remotes, host_and_port, load_ip_list, parse_ip_port, provider_file, read_line,
    read_lines, resolve_ip_port, AddressError, LineContent, RefusedList,
};
use tcp_forwarder::forwarder::selector::{
    active_count_to_report, compare, decide_change, evaluate_and_select, is_change_significant,
    remotes_to_mark, select_candidates, wait_after, IpChangeEvent, SelectorWait,
};
use tcp_forwarder::net::{parse_ip, IpAddr};
use tcp_forwarder::time::Duration;

const SECOND: u128 = 1_000_000_000;

fn double(value: f64) -> Double {
    Double { bits: value.to_bits() }
}

fn v4(a: u8, b: u8, c: u8, d: u8) -> IpAddr {
    IpAddr::V4(u32::from_be_bytes([a, b, c, d]))
}

fn strings(list: &[&str]) -> Vec<String> {
    list.iter().map(|s| s.to_string()).collect()
}

fn three() -> Vec<IpAddr> {
    vec![v4(192, 168, 1, 1), v4(192, 168, 1, 2), v4(192, 168, 1, 3)]
}

fn dynamic() -> DynamicStrategyConfig {
    DynamicStrategyConfig {
        min_size: 5,
        max_size: 20,
        scaling: ScalingConfig {
            interval: Duration::from_secs(10),
            target_buffer_ratio: double(0.2),
            scale_up_increment: 4,
            scale_down_increment: 2,
        },
    }
}

fn alive(stream: &bool) -> bool {
    *stream
}

#[test]
fn test_least_connections_selection() {
    let mut lb = LoadBalancer::new(LoadBalanceAlgorithm::LeastConnections);
    let ips = three();

    let selected = lb.select_least_connections(&ips);
    assert_eq!(selected, ips[0]);

    lb.state.increment_connection(ips[0]);

    let selected = lb.select_least_connections(&ips);
    assert_eq!(selected, ips[1]);
}

#[test]
fn test_round_robin_selection() {
    let mut lb = LoadBalancer::new(LoadBalanceAlgorithm::RoundRobin);
    let ips = three();

    for i in 0..6 {
        let selected = lb.select_round_robin(&ips);
        assert_eq!(selected, ips[i % ips.len()]);
    }
}

#[test]
fn test_random_selection() {
    let lb = LoadBalancer::new(LoadBalanceAlgorithm::Random);
    let ips = three();

    for _ in 0..10 {
        let selected = lb.select_random(&ips);
        assert!(ips.contains(&selected));
    }
}

#[test]
fn algorithms_have_names() {
    assert_eq!(LoadBalanceAlgorithm::from_str("Round_Robin"), LoadBalanceAlgorithm::RoundRobin);
    assert_eq!(LoadBalanceAlgorithm::from_str("RANDOM"), LoadBalanceAlgorithm::Random);
    assert_eq!(LoadBalanceAlgorithm::from_str("other"), LoadBalanceAlgorithm::LeastConnections);
    for algorithm in [
        LoadBalanceAlgorithm::LeastConnections,
        LoadBalanceAlgorithm::RoundRobin,
        LoadBalanceAlgorithm::Random,
    ] {
        let name = LoadBalancer::new(algorithm).algorithm_name();
        assert_eq!(LoadBalanceAlgorithm::from_str(name), algorithm);
    }
}

#[test]
fn each_remote_has_its_turn() {
    let ips = three();
    let mut lb = LoadBalancer::new(LoadBalanceAlgorithm::RoundRobin);
    for _ in 0..7 {
        lb.select_round_robin(&ips);
    }
    let turns: Vec<_> = (0..3).map(|_| lb.select_round_robin(&ips)).collect();
    assert_eq!(turns, vec![ips[1], ips[2], ips[0]]);
    assert_eq!(lb.select_round_robin(&ips), ips[1]);
}

#[test]
fn connections_are_counted_for_least_connections_only() {
    let ips = three();
    let mut lb = LoadBalancer::new(LoadBalanceAlgorithm::LeastConnections);
    lb.on_connection_start(ips[1]);
    lb.on_connection_start(ips[1]);
    lb.on_connection_end(ips[1]);
    assert_eq!(lb.state.get_connection_count(ips[1]), 1);
    assert_eq!(lb.get_connection_stats(), vec![(ips[1], 1)]);
    assert_eq!(lb.state.get_connection_counter(ips[2]), 0);
    lb.cleanup_inactive_ips(&[ips[2]]);
    assert_eq!(lb.get_connection_stats(), vec![(ips[2], 0)]);
    let mut lb = LoadBalancer::new(LoadBalanceAlgorithm::RoundRobin);
    lb.on_connection_start(ips[1]);
    assert_eq!(lb.state.get_connection_count(ips[1]), 0);
    assert!(matches!(lb.select_target_ip(&[]), Err(NoActiveIps {})));
    assert!(matches!(lb.select_target_ip(&ips), Ok(ip) if ip == ips[0]));
    assert!(matches!(lb.select_target_ip(&ips), Ok(ip) if ip == ips[1]));
}

#[test]
fn test_parse_ip_port_ipv4() {
    let (ip, port) = parse_ip_port("192.168.1.1", 3000).unwrap();
    assert_eq!(ip, v4(192, 168, 1, 1));
    assert_eq!(port, 3000);

    let (ip, port) = parse_ip_port("192.168.1.1:8080", 3000).unwrap();
    assert_eq!(ip, v4(192, 168, 1, 1));
    assert_eq!(port, 8080);
}

#[test]
fn test_parse_ip_port_ipv6() {
    let address = IpAddr::V6(0x2001_0db8_0000_0000_0000_0000_0000_0001);

    let (ip, port) = parse_ip_port("2001:db8::1", 3000).unwrap();
    assert_eq!(ip, address);
    assert_eq!(port, 3000);

    let (ip, port) = parse_ip_port("[2001:db8::1]", 3000).unwrap();
    assert_eq!(ip, address);
    assert_eq!(port, 3000);

    let (ip, port) = parse_ip_port("[2001:db8::1]:8080", 3000).unwrap();
    assert_eq!(ip, address);
    assert_eq!(port, 8080);

    let (ip, port) = parse_ip_port("[::1]:9000", 3000).unwrap();
    assert_eq!(ip, IpAddr::V6(1));
    assert_eq!(port, 9000);
}

#[test]
fn test_parse_ip_port_edge_cases() {
    let (ip, port) = parse_ip_port("  192.168.1.1:8080  ", 3000).unwrap();
    assert_eq!(ip, v4(192, 168, 1, 1));
    assert_eq!(port, 8080);

    assert!(parse_ip_port("invalid", 3000).is_err());
    assert!(parse_ip_port("256.256.256.256", 3000).is_err());
    assert!(parse_ip_port("[invalid_ipv6]", 3000).is_err());
}

#[test]
fn bad_addresses_are_told_apart() {
    assert_eq!(parse_ip_port("[x]", 1), Err(AddressError::InvalidIp));
    assert_eq!(parse_ip_port("[::1]:99999", 1), Err(AddressError::InvalidPort));
    assert_eq!(parse_ip_port("nothing", 1), Err(AddressError::InvalidFormat));
}

#[test]
fn lists_of_remotes_are_read() {
    let text = "# remotes\n10.0.0.1\n\n10.0.0.2:81\n[::1]:82\nnonsense\n10.1.0.0/16\n";
    assert_eq!(
        load_ip_list(text, 80, &vec![]).unwrap(),
        vec![
            (v4(10, 0, 0, 1), 80),
            (v4(10, 0, 0, 2), 81),
            (IpAddr::V6(1), 82),
            (v4(10, 1, 0, 0), 80),
        ]
    );
    assert_eq!(
        load_ip_list("10.0.0.1\n a/b \n10.0.0.2\nc/d\n", 80, &vec![]),
        Err(RefusedList { line: "a/b".to_string(), remotes: vec![(v4(10, 0, 0, 1), 80)] })
    );
    assert_eq!(read_line("10.1.0.0/16", 80), LineContent::Remote(v4(10, 1, 0, 0), 80));
    assert_eq!(read_line("a/b", 80), LineContent::BadNetwork);
    assert_eq!(read_line("ab", 80), LineContent::Host("ab".to_string(), 80));
    assert_eq!(read_line("[ab]", 80), LineContent::Skipped);
    let contents = vec![LineContent::Skipped, LineContent::BadNetwork, LineContent::BadNetwork];
    assert_eq!(collect_remotes(&contents, &vec![]), (vec![], Some(1)));
}

#[test]
fn addresses_without_brackets_have_no_port() {
    let read = |text: &str| parse_ip_port(text, 3000).unwrap();
    assert_eq!(read("fe80::1:2"), (parse_ip("fe80::1:2").unwrap(), 3000));
    assert_eq!(read("2001:db8:0:0:0:0:0:1"), (parse_ip("2001:db8::1").unwrap(), 3000));
    assert_eq!(read("::ffff:10.0.0.1"), (parse_ip("::ffff:10.0.0.1").unwrap(), 3000));
    assert_eq!(read("1:2:3:4:5:6:7:8:9").1, 9);
}

#[test]
fn written_addresses_are_read_back() {
    for port in [0, 7, 80, 8080, 65535] {
        for text in ["192.0.2.1", "0.0.0.0"] {
            let ip = parse_ip(text).unwrap();
            assert_eq!(parse_ip_port(&format!(" {}:{}\t", text, port), 1), Ok((ip, port)));
        }
        for text in ["::", "2001:db8::1", "fe80::1:2", "::ffff:10.0.0.1"] {
            let ip = parse_ip(text).unwrap();
            assert_eq!(parse_ip_port(&format!("\n[{}]:{} ", text, port), 1), Ok((ip, port)));
            assert_eq!(parse_ip_port(text, port), Ok((ip, port)));
        }
    }
}

#[test]
fn hosts_are_found_and_resolved() {
    let host = |name: &str, port: u16| Some((name.to_string(), port));
    assert_eq!(host_and_port("example.com", 3000), host("example.com", 3000));
    assert_eq!(host_and_port(" example.com:8080 ", 3000), host("example.com", 8080));
    assert_eq!(host_and_port("example.com:http", 3000), None);
    assert_eq!(host_and_port("a:b:80", 3000), None);
    assert_eq!(host_and_port(":80", 3000), None);
    assert_eq!(host_and_port("", 3000), None);
    assert_eq!(host_and_port("[example.com]:80", 3000), None);
    let ip = v4(192, 0, 2, 9);
    assert_eq!(resolve_ip_port("example.com:8080", 3000, Some(ip)), Ok((ip, 8080)));
    assert_eq!(resolve_ip_port("example.com", 3000, Some(ip)), Ok((ip, 3000)));
    assert_eq!(resolve_ip_port("invalid", 3000, None), Err(AddressError::InvalidFormat));
    assert_eq!(resolve_ip_port("[x]", 3000, Some(ip)), Err(AddressError::InvalidIp));
    assert_eq!(resolve_ip_port("10.0.0.1:81", 3000, Some(ip)), Ok((v4(10, 0, 0, 1), 81)));
}

#[test]
fn lists_of_remotes_name_hosts() {
    let text = "10.0.0.1\nexample.com:8080\n# none\nnowhere\nexample.org\n";
    let contents = read_lines(text, 80);
    assert_eq!(contents.len(), 4);
    assert_eq!(contents[1], LineContent::Host("example.com".to_string(), 8080));
    let (a, b) = (v4(192, 0, 2, 1), v4(192, 0, 2, 2));
    let answers = vec![None, Some(a), None, Some(b)];
    assert_eq!(
        load_ip_list(text, 80, &answers).unwrap(),
        vec![(v4(10, 0, 0, 1), 80), (a, 8080), (b, 80)]
    );
    assert_eq!(load_ip_list(text, 80, &vec![]).unwrap(), vec![(v4(10, 0, 0, 1), 80)]);
}

#[test]
fn remotes_are_listed_in_files() {
    let file = FileProviderConfig { path: "ips.txt".to_string(), watch: true };
    let mut provider = ProviderConfig { provider_type: "file".to_string(), file: Some(file) };
    assert_eq!(provider_file(&provider).unwrap().path, "ips.txt");
    provider.provider_type = "http".to_string();
    assert!(provider_file(&provider).is_none());
}

#[test]
fn the_settings_file_is_named() {
    let path = |list: &[&str]| match get_config_path(&strings(list)) {
        ConfigPath::Path(p) => p,
        ConfigPath::Help => "help".to_string(),
    };
    assert_eq!(path(&["prog"]), "config.yaml");
    assert_eq!(path(&["prog", "-c", "a.yaml"]), "a.yaml");
    assert_eq!(path(&["prog", "--config", "b.yaml", "-h"]), "b.yaml");
    assert_eq!(path(&["prog", "--config=c.yaml"]), "c.yaml");
    assert_eq!(path(&["prog", "--help"]), "help");
    assert_eq!(path(&["prog", "-c"]), "config.yaml");
}

#[test]
fn logging_is_planned() {
    let mut config = LoggingConfig {
        level: "WARN".to_string(),
        format: "Json".to_string(),
        output: "StdErr".to_string(),
    };
    let plan = plan_logging(&config);
    assert_eq!(plan.level, LogLevel::Warn);
    assert!(plan.json);
    assert!(matches!(plan.output, LogOutput::Stderr));
    config.level = "loud".to_string();
    config.format = "text".to_string();
    config.output = "Log.TXT".to_string();
    let plan = plan_logging(&config);
    assert_eq!(plan.level, LogLevel::Info);
    assert!(!plan.json);
    assert!(matches!(plan.output, LogOutput::File(path) if path == "Log.TXT"));
    config.output = "/var/log/App.log".to_string();
    let plan = plan_logging(&config);
    assert!(matches!(plan.output, LogOutput::File(path) if path == "/var/log/App.log"));
    config.output = "STDOUT".to_string();
    assert!(matches!(plan_logging(&config).output, LogOutput::Stdout));
}

#[test]
fn metrics_change_with_connections() {
    assert_eq!(
        on_accept(true),
        vec![
            MetricUpdate::Count { metric: Metric::ConnectionsTotal, by: 1 },
            MetricUpdate::Raise { metric: Metric::ActiveConnections },
        ]
    );
    assert_eq!(
        on_connection_over(false),
        vec![
            MetricUpdate::Lower { metric: Metric::ActiveConnections },
            MetricUpdate::Count { metric: Metric::ConnectionsFailed, by: 1 },
            MetricUpdate::Count { metric: Metric::ErrorsTotal, by: 1 },
        ]
    );
    assert_eq!(
        on_pool(true, "10.0.0.1"),
        vec![MetricUpdate::Count { metric: Metric::PoolHits, by: 1 }]
    );
    assert_eq!(
        record_active_ips(double(3.0)),
        vec![MetricUpdate::Assign { metric: Metric::ActiveIps, to: double(3.0) }]
    );
    assert!(register_metrics().contains(&Metric::Uptime));
    assert_eq!(Metric::TransferBytes.kind(), MetricKind::Histogram);
    assert_eq!(Metric::ConnectionsTotal.kind(), MetricKind::Counter);
    assert_eq!(Metric::ActiveIps.kind(), MetricKind::Gauge);
    let names: Vec<&str> = register_metrics().iter().map(|m| m.name()).collect();
    for (i, name) in names.iter().enumerate() {
        assert!(!names[i + 1..].contains(name));
    }
    let _ = record_pool_size("10.0.0.1", double(2.0));
}

#[test]
fn connections_go_through_their_steps() {
    let ip = v4(10, 0, 0, 1);
    assert_eq!(after_selection(1, Ok(ip)), SelectionStep::Connect(ip));
    assert_eq!(after_selection(0, Err(NoActiveIps {})), SelectionStep::Retry { delay_ms: 500 });
    assert_eq!(after_selection(1, Err(NoActiveIps {})), SelectionStep::Fail);
    assert!(keeps_waiting(49, 0));
    assert!(!keeps_waiting(50, 0));
    assert!(!keeps_waiting(0, 1));
    let span = Duration::from_millis(3);
    let mut lb = LoadBalancer::new(LoadBalanceAlgorithm::LeastConnections);
    lb.on_connection_start(ip);
    let (event, updates) = on_connect(&mut lb, ip, Some(span));
    assert_eq!(lb.state.get_connection_count(ip), 1);
    assert_eq!(event, ScoreEvent::Success(span));
    assert_eq!(updates, vec![MetricUpdate::Time { metric: Metric::ConnectionDuration, span }]);
    let other = v4(10, 0, 0, 2);
    lb.on_connection_start(other);
    lb.on_connection_start(ip);
    let (event, updates) = on_connect(&mut lb, ip, None);
    assert_eq!(lb.state.get_connection_count(ip), 1);
    assert_eq!(lb.state.get_connection_count(other), 1);
    assert_eq!(event, ScoreEvent::Failure);
    assert!(updates.is_empty());
    let (success, updates) = on_transfer_end(&mut lb, ip, Some((3, 4)));
    assert!(success);
    assert_eq!(updates, vec![MetricUpdate::Amount { metric: Metric::TransferBytes, value: 7 }]);
    assert_eq!(lb.state.get_connection_count(ip), 0);
}

#[test]
fn pools_hand_out_the_oldest_connection() {
    let mut pool = PoolState::new(2, 0);
    assert!(!pool.offer(PooledConnection::new(true, 1), true));
    assert!(!pool.offer(PooledConnection::new(true, 2), true));
    assert_eq!(get_pool_statistics(Some(&pool)), Some((2, 2, 0, 0)));
    let conn = get_connection_from_pool(&mut pool, 9, alive).unwrap();
    assert_eq!(conn.created_at, 1);
    assert_eq!(get_pool_statistics(Some(&pool)), Some((2, 1, 1, 1)));
    assert!(return_connection_to_pool(&mut pool, conn, true, 10));
    assert_eq!(get_pool_statistics(Some(&pool)), Some((2, 2, 0, 1)));
    assert_eq!(get_pool_statistics::<bool>(None), None);
    assert_eq!(pool.scale_down(1), 1);
    assert_eq!(pool.len(), 1);
    pool.record_scaling(77);
    assert_eq!(pool.stats().last_scaling_time(), 77);
    assert!(pool.is_active());
    pool.mark_inactive();
    assert!(!pool.is_active());
}

#[test]
fn connections_wait_for_room_in_the_pool() {
    let mut pool = PoolState::new(1, 0);
    assert!(!pool.offer(PooledConnection::new(true, 1), true));
    assert!(pool.offer(PooledConnection::new(true, 2), true));
    assert!(pool.offer(PooledConnection::new(true, 3), false));
    assert_eq!(pool.let_in(), 0);
    assert_eq!(get_pool_statistics(Some(&pool)), Some((1, 1, 0, 0)));
    let first = get_connection_from_pool(&mut pool, 9, alive).unwrap();
    assert_eq!(first.created_at, 1);
    assert!(!return_connection_to_pool(&mut pool, first, true, 10));
    assert_eq!(pool.let_in(), 1);
    assert_eq!(pool.len(), 1);
    assert_eq!(get_pool_statistics(Some(&pool)), Some((1, 1, 0, 1)));
    assert_eq!(pool.scale_down(1), 1);
    assert_eq!(pool.let_in(), 1);
    assert_eq!(get_pool_statistics(Some(&pool)), Some((0, 0, 0, 1)));
    let last = get_connection_from_pool(&mut pool, 11, alive).unwrap();
    assert_eq!(last.created_at, 3);
    assert_eq!(pool.let_in(), 0);
}

#[test]
fn a_check_leaves_room_for_those_that_wait() {
    let mut pool = PoolState::new(2, 0);
    for made in 1..4 {
        pool.offer(PooledConnection::new(true, made), true);
    }
    assert_eq!(health_check(&mut pool, Duration::from_secs(1), 5, alive), 1);
    assert_eq!(pool.let_in(), 1);
    let order: Vec<u128> = (0..2)
        .map(|_| get_connection_from_pool(&mut pool, 6, alive).unwrap().created_at)
        .collect();
    assert_eq!(order, vec![1, 3]);
}

#[test]
fn bad_connections_leave_the_pool() {
    let mut pool = PoolState::new(5, 0);
    pool.offer(PooledConnection::new(false, 0), true);
    pool.offer(PooledConnection::new(true, 0), true);
    let dropped = health_check(&mut pool, Duration::from_secs(120), 119 * SECOND, alive);
    assert_eq!(dropped, 1);
    assert_eq!(pool.len(), 1);
    assert_eq!(health_check(&mut pool, Duration::from_secs(60), 179 * SECOND, alive), 0);
    assert_eq!(health_check(&mut pool, Duration::from_secs(60), 240 * SECOND, alive), 1);
    assert_eq!(pool.len(), 0);
    let conn = PooledConnection::new(true, 0);
    assert!(!conn.is_expired(Duration::from_secs(120), 120 * SECOND));
    assert!(conn.is_expired(Duration::from_secs(120), 120 * SECOND + 1));
    assert!(!return_connection_to_pool(&mut pool, conn, false, 1));
}

#[test]
fn peaks_are_remembered() {
    let mut stats = PoolStats::new(0);
    stats.record_connection_created();
    stats.record_connection_created();
    stats.record_connection_acquired();
    stats.record_connection_acquired();
    stats.record_connection_released(true);
    assert_eq!(stats.get_recent_peak_concurrency(), 2);
    assert_eq!((stats.active_connections(), stats.available_connections()), (1, 1));
    assert_eq!(stats.total_connections(), 2);
    assert_eq!(stats.calculate_target_size(3), 5);
    assert_eq!(stats.connection_requests(), 2);
    stats.record_connection_released(true);
    for _ in 0..99 {
        stats.record_connection_acquired();
        stats.record_connection_released(false);
    }
    assert_eq!(stats.get_recent_peak_concurrency(), 2);
    stats.record_connection_acquired();
    assert_eq!(stats.get_recent_peak_concurrency(), 1);
}

#[test]
fn pools_are_set_up_by_strategy() {
    let mut strategy = PoolStrategyConfig {
        strategy_type: "static".to_string(),
        static_: Some(StaticStrategyConfig { size_per_remote: 7 }),
        dynamic: None,
    };
    let p = pool_parameters(&strategy);
    assert_eq!((p.pool_size, p.buffer_size, p.dynamic.is_some()), (7, 14, false));
    strategy.static_ = None;
    assert_eq!(pool_parameters(&strategy).pool_size, 50);
    strategy.strategy_type = "dynamic".to_string();
    strategy.dynamic = Some(dynamic());
    let p = pool_parameters(&strategy);
    assert_eq!((p.pool_size, p.buffer_size, p.dynamic.is_some()), (5, 100, true));
    strategy.strategy_type = "other".to_string();
    let p = pool_parameters(&strategy);
    assert_eq!((p.pool_size, p.buffer_size, p.dynamic.is_some()), (50, 100, false));
}

#[test]
fn pools_change_their_size_step_by_step() {
    let config = dynamic();
    let long = Duration::from_secs(1);
    assert_eq!(
        decide_scaling(9, 1, 1, Duration::from_millis(999), &config),
        ScalingStep::TooSoon
    );
    assert_eq!(decide_scaling(9, 1, 1, long, &config), ScalingStep::Up(4));
    assert_eq!(decide_scaling(99, 18, 1, long, &config), ScalingStep::Up(2));
    assert_eq!(decide_scaling(0, 8, 3, long, &config), ScalingStep::Down(2));
    assert_eq!(decide_scaling(0, 6, 3, long, &config), ScalingStep::Down(1));
    assert_eq!(decide_scaling(0, 8, 2, long, &config), ScalingStep::Stay);
    assert_eq!(decide_scaling(8, 8, 8, long, &config), ScalingStep::Stay);
}

#[test]
fn pools_are_kept_filled() {
    let config = dynamic();
    assert_eq!(dynamic_fill_count(2, 2, &config), 3);
    assert_eq!(dynamic_fill_count(16, 1, &config), 3);
    assert_eq!(dynamic_fill_count(19, 0, &config), 1);
    assert_eq!(dynamic_fill_count(20, 0, &config), 0);
    assert_eq!(static_fill_count(3, 7), 4);
    assert_eq!(static_fill_count(7, 3), 0);
}

#[test]
fn pools_come_and_go_with_remotes() {
    let ips = three();
    let changes = plan_pools(
        &vec![ips[1], ips[2]],
        &vec![ips[0], ips[1]],
        &vec![ips[0], ips[1]],
    );
    assert_eq!(changes.create, vec![ips[2]]);
    assert_eq!(changes.remove, vec![ips[0]]);
}

#[test]
fn the_longest_waiting_remotes_are_probed() {
    let target = |n: u32, last_probed: Option<i128>| ProbeTarget {
        ip: IpAddr::V4(n),
        port: 80,
        last_probed,
    };
    let hour: i128 = 3_600_000_000_000;
    let now = 10 * hour;
    let all = vec![
        target(1, Some(now)),
        target(2, Some(now - 2 * hour)),
        target(3, None),
        target(4, Some(now - 1)),
    ];
    let chosen = select_probe_candidates(&all, now, 2);
    assert_eq!(chosen.iter().map(|t| t.ip).collect::<Vec<_>>(), vec![IpAddr::V4(2), IpAddr::V4(3)]);
    assert_eq!(select_probe_candidates(&all, now, 4), all);
    assert!(select_probe_candidates(&all, now, 0).is_empty());
}

#[test]
fn first_probes_are_planned() {
    let initial = InitialProbingConfig { enabled: true, max_concurrency: 5, timeout: None };
    assert_eq!(plan_initial_probing(Some(initial), 3), InitialPlan::Probe { max_concurrent: 3 });
    assert_eq!(plan_initial_probing(Some(initial), 9), InitialPlan::Probe { max_concurrent: 5 });
    assert_eq!(plan_initial_probing(Some(initial), 0), InitialPlan::Nothing);
    assert_eq!(plan_initial_probing(None, 3), InitialPlan::Disabled);
    let mut config = ProbingConfig {
        interval: Duration::from_secs(1),
        timeout: Duration::from_secs(2),
        probe_candidate_count: 3,
        initial: Some(initial),
    };
    assert_eq!(initial_timeout(&config), Duration::from_secs(2));
    config.initial = Some(InitialProbingConfig { timeout: Some(Duration::from_secs(4)), ..initial });
    assert_eq!(initial_timeout(&config), Duration::from_secs(4));
    assert!(shows_progress(6, 30));
    assert!(!shows_progress(7, 30));
    assert!(shows_progress(7, 9));
    assert!(shows_details(20));
    assert!(!shows_details(21));
}

#[test]
fn probes_change_metrics() {
    let span = Duration::from_millis(5);
    let report = process_probe_result(ProbeOutcome::Connected(span), "10.0.0.1");
    assert!(report.success);
    assert_eq!(report.latency, Some(span));
    assert_eq!(report.updates.len(), 2);
    let report = process_probe_result(ProbeOutcome::TimedOut, "10.0.0.1");
    assert!(!report.success);
    assert_eq!(
        report.updates,
        vec![MetricUpdate::Count { metric: Metric::IpProbesFailed, by: 1 }]
    );
}

#[test]
fn the_best_remotes_are_selected() {
    let ips = three();
    let scored = vec![
        (ips[0], double(50.0)),
        (ips[1], double(90.0)),
        (ips[2], double(f64::NAN)),
        (parse_ip("::1").unwrap(), double(90.0)),
    ];
    assert_eq!(
        select_candidates(&scored, double(40.0), 9),
        vec![ips[1], parse_ip("::1").unwrap(), ips[0]]
    );
    assert_eq!(select_candidates(&scored, double(60.0), 1), vec![ips[1]]);
    assert!(select_candidates(&scored, double(95.0), 3).is_empty());
    let picked = select_candidates(&scored, double(40.0), 2);
    assert_eq!(picked, vec![ips[1], parse_ip("::1").unwrap()]);
}

#[test]
fn small_changes_are_put_off() {
    let ips = three();
    let event = compare(&vec![ips[1], ips[2]], &vec![ips[0], ips[1]]);
    assert_eq!(event.added, vec![ips[2]]);
    assert_eq!(event.removed, vec![ips[0]]);
    assert_eq!(event.unchanged, vec![ips[1]]);
    let put_off = decide_change(
        vec![ips[1]],
        vec![ips[0]],
        5 * SECOND,
        6 * SECOND,
        Duration::from_secs(2),
        false,
    );
    assert_eq!(put_off.active, vec![ips[0]]);
    assert_eq!(put_off.event.unchanged, vec![ips[0]]);
    assert_eq!(put_off.last_change, 5 * SECOND);
    let late = decide_change(
        vec![ips[1]],
        vec![ips[0]],
        5 * SECOND,
        7 * SECOND,
        Duration::from_secs(2),
        false,
    );
    assert_eq!(late.active, vec![ips[1]]);
    assert_eq!(late.last_change, 7 * SECOND);
}

#[test]
fn large_changes_are_made_at_once() {
    let ips = three();
    let gain = |_: &Vec<IpAddr>, _: &Vec<IpAddr>| double(12.5);
    assert!(is_change_significant(&vec![], &vec![], double(0.0), gain));
    assert!(is_change_significant(&vec![], &vec![], double(12.5), gain));
    assert!(!is_change_significant(&vec![], &vec![], double(13.0), gain));
    let config = SelectorConfig {
        evaluation_interval: Duration::from_secs(10),
        active_set_size: 2,
        min_score_threshold: double(10.0),
        switching: SwitchingPolicyConfig {
            debounce_interval: Duration::from_secs(60),
            score_improvement_threshold: double(10.0),
        },
    };
    let scored = vec![(ips[0], double(20.0)), (ips[1], double(30.0))];
    let outcome = evaluate_and_select(&scored, vec![ips[2]], &config, 0, SECOND, gain);
    assert_eq!(outcome.active, vec![ips[1], ips[0]]);
    assert_eq!(outcome.event.removed, vec![ips[2]]);
    assert_eq!(outcome.last_change, SECOND);
    assert_eq!(remotes_to_mark(&outcome), vec![ips[1], ips[0]]);
    let same = evaluate_and_select(&scored, outcome.active, &config, 0, SECOND, gain);
    assert_eq!(same.active, vec![ips[1], ips[0]]);
    assert!(remotes_to_mark(&same).is_empty());
}

#[test]
fn active_remotes_are_reported() {
    let ips = three();
    let event = IpChangeEvent { added: vec![ips[0]], removed: vec![], unchanged: vec![ips[1]] };
    assert_eq!(active_count_to_report(&event, false), Some(2));
    let event = IpChangeEvent { added: vec![], removed: vec![], unchanged: vec![ips[1]] };
    assert_eq!(active_count_to_report(&event, true), Some(1));
    assert_eq!(active_count_to_report(&event, false), None);
    assert_eq!(wait_after(true), SelectorWait::Settle { secs: 2 });
    assert_eq!(wait_after(false), SelectorWait::Interval);
}
