use tcp_forwarder::float_bits::Single;
use tcp_forwarder::model::{IpQuality, SubnetQuality};
use tcp_forwarder::net::{parse_ip, parse_ipnet, IpAddr, IpNet, PrefixLenError};
use tcp_forwarder::scanner::asn::{after_attempt, cidr_entries, keep_networks, parse_cidr_list, FetchStep};
use tcp_forwarder::scanner::executor::{
    aggregate_and_persist, endpoint_of_parts, flush_batch, generate_scan_targets, plan_scan,
    split_cidrs_to_subnets, split_subnets, summarize, Persisted, ScanProgress,
};
use tcp_forwarder::scanner::probe::{
    calculate_average, calculate_jitter, judge_probe, loss_rate, parse_colo, ProbeRun,
};
use tcp_forwarder::scanner::results::ScanResults;
use tcp_forwarder::scanner::{
    adaptive_stats, after_initial_scan, analyze_hot_spots, background_step, choose_root_cidrs,
    effective_concurrency, first_phase, focused_phase, runs_background_scan, AdaptiveStep,
    BackgroundEvent, BackgroundStep, Phase, ScanStats,
};
use tcp_forwarder::config::{ScanStrategyConfig, ScanStrategyType};
use tcp_forwarder::state::{calculate_top_k, IpManager};
use tcp_forwarder::url::{is_url, parse_url, UrlParts};
use tcp_forwarder::utils::{generate_random_ip_in_subnet, host_range};

fn net(text: &str) -> IpNet {
    parse_ipnet(text).unwrap()
}

fn single(value: f32) -> Single {
    Single { bits: value.to_bits() }
}

fn quality(ip: &str, latency: u128, jitter: u128, score: f32, colo: &str) -> IpQuality {
    IpQuality::new(
        parse_ip(ip).unwrap(),
        latency,
        jitter,
        single(0.0),
        colo.to_string(),
        single(score),
        0,
    )
}

fn record(text: &str, score: f32) -> SubnetQuality {
    let mut q = SubnetQuality::empty(net(text), 0);
    q.score = single(score);
    q
}

#[test]
fn scanner_test_parse_colo() {
    let body = "fl=123\ncolo=LAX\nip=1.2.3.4";
    assert_eq!(parse_colo(body), Some("LAX".to_string()));

    let body_no_colo = "fl=123\nip=1.2.3.4";
    assert_eq!(parse_colo(body_no_colo), None);
}

#[test]
fn probe_test_parse_colo() {
    let body = "fl=123\ncolo=LAX\nip=1.2.3.4";
    assert_eq!(parse_colo(body), Some("LAX".to_string()));

    let body_no_colo = "fl=123\nip=1.2.3.4";
    assert_eq!(parse_colo(body_no_colo), None);
}

#[test]
fn first_colo_line_counts() {
    assert_eq!(parse_colo("xcolo=AAA\r\ncolo=SJC\r\ncolo=LAX"), Some("SJC".to_string()));
    assert_eq!(parse_colo("colo="), Some(String::new()));
    assert_eq!(parse_colo(""), None);
}

#[test]
fn scanner_test_calculate_jitter() {
    let latencies = vec![100, 110, 105, 115];
    let jitter = calculate_jitter(&latencies);
    assert_eq!(jitter, 8);
}

#[test]
fn probe_test_calculate_jitter() {
    let latencies = vec![100, 110, 105, 115];
    let jitter = calculate_jitter(&latencies);
    assert_eq!(jitter, 8);
}

#[test]
fn jitter_reads_large_values_as_signed() {
    assert_eq!(calculate_jitter(&[u128::MAX, 0]), 1);
    assert_eq!(calculate_jitter(&[5, u128::MAX - 1]), 7);
}

#[test]
fn jitter_goes_by_the_changes_alone() {
    let latencies = [100, 140, 90, 95, 200];
    let jitter = calculate_jitter(&latencies);
    assert_eq!(jitter, 50);
    let reversed: Vec<u128> = latencies.iter().rev().copied().collect();
    assert_eq!(calculate_jitter(&reversed), jitter);
    let shifted: Vec<u128> = latencies.iter().map(|l| l + 1000).collect();
    assert_eq!(calculate_jitter(&shifted), jitter);
    assert!(jitter <= 200 - 90);
    assert_eq!(calculate_jitter(&[3, 10, 3, 10]), 10 - 3);
}

#[test]
fn jitter_of_few_values() {
    assert_eq!(calculate_jitter(&[]), 0);
    assert_eq!(calculate_jitter(&[7]), 0);
    assert_eq!(calculate_jitter(&[7, 3]), 4);
}

#[test]
fn average_of_latencies() {
    assert_eq!(calculate_average(&[]), 0);
    assert_eq!(calculate_average(&[1, 2, 4]), 2);
    assert_eq!(calculate_average(&[u128::MAX, 1]), u128::MAX / 2);
}

#[test]
fn scanner_test_parse_cidr_list() {
    let text = "104.16.0.0/12\n# comment\n172.64.0.0/13\n\n";
    let cidrs = parse_cidr_list(text);
    assert_eq!(cidrs.len(), 2);
}

#[test]
fn asn_test_parse_cidr_list() {
    let text = "104.16.0.0/12\n# comment\n172.64.0.0/13\n\n";
    let cidrs = parse_cidr_list(text);
    assert_eq!(cidrs.len(), 2);
}

#[test]
fn cidr_list_keeps_order_and_skips_noise() {
    let text = "  10.0.0.0/8 \r\nnonsense\n#x\n2001:db8::/32";
    assert_eq!(
        cidr_entries(text),
        vec!["10.0.0.0/8".to_string(), "nonsense".to_string(), "2001:db8::/32".to_string()]
    );
    assert_eq!(
        parse_cidr_list(text),
        vec![
            IpNet::V4 { addr: 0x0A00_0000, prefix_len: 8 },
            IpNet::V6 { addr: 0x2001_0db8 << 96, prefix_len: 32 },
        ]
    );
    assert_eq!(keep_networks(&vec![None, Some(net("1.0.0.0/8")), None]), vec![net("1.0.0.0/8")]);
}

#[test]
fn fetching_is_tried_three_times() {
    assert!(matches!(after_attempt(1, None), FetchStep::Retry { delay_secs: 2 }));
    assert!(matches!(after_attempt(2, None), FetchStep::Retry { delay_secs: 2 }));
    assert!(matches!(after_attempt(3, None), FetchStep::GiveUp));
    match after_attempt(3, Some("1.2.3.0/24\n")) {
        FetchStep::Done(nets) => assert_eq!(nets, vec![net("1.2.3.0/24")]),
        other => panic!("{:?}", other),
    }
}

#[test]
fn scanner_test_split_cidrs_to_subnets() {
    let cidrs = vec![net("104.16.0.0/24"), net("104.16.1.0/24"), net("104.16.0.0/23")];
    let subnets = split_cidrs_to_subnets(cidrs, 24);
    assert_eq!(subnets.len(), 2);
    assert!(subnets.contains(&net("104.16.0.0/24")));
    assert!(subnets.contains(&net("104.16.1.0/24")));
}

#[test]
fn executor_test_split_cidrs_to_subnets() {
    let cidrs = vec![net("104.16.0.0/24"), net("104.16.1.0/24"), net("104.16.0.0/23")];
    let subnets = split_cidrs_to_subnets(cidrs, 24);
    assert_eq!(subnets.len(), 2);
    assert!(subnets.contains(&net("104.16.0.0/24")));
    assert!(subnets.contains(&net("104.16.1.0/24")));
}

#[test]
fn scanner_test_split_cidrs_to_subnets_smaller_mask() {
    let cidrs = vec![net("104.16.0.0/24")];
    let subnets = split_cidrs_to_subnets(cidrs, 20);
    assert_eq!(subnets.len(), 1);
    assert_eq!(subnets[0], net("104.16.0.0/24"));
}

#[test]
fn executor_test_split_cidrs_to_subnets_smaller_mask() {
    let cidrs = vec![net("104.16.0.0/24")];
    let subnets = split_cidrs_to_subnets(cidrs, 20);
    assert_eq!(subnets.len(), 1);
    assert_eq!(subnets[0], net("104.16.0.0/24"));
}

#[test]
fn split_joins_touching_networks_first() {
    let subnets = split_cidrs_to_subnets(vec![net("10.0.1.0/24"), net("10.0.0.0/24")], 16);
    assert_eq!(subnets, vec![net("10.0.0.0/23")]);
}

#[test]
fn small_networks_stay_only_where_a_part_is_missing() {
    let quarters = ["10.0.0.0/26", "10.0.0.64/26", "10.0.0.128/26", "10.0.0.192/26"];
    let all = quarters.iter().map(|q| net(q)).collect();
    assert_eq!(split_cidrs_to_subnets(all, 24), vec![net("10.0.0.0/24")]);
    let some = quarters[1..].iter().map(|q| net(q)).collect();
    assert_eq!(split_cidrs_to_subnets(some, 24), vec![net("10.0.0.64/26"), net("10.0.0.128/25")]);
    let ends = vec![net("255.255.255.255/32"), net("0.0.0.0/0"), net("::/1"), net("8000::/1")];
    assert_eq!(split_cidrs_to_subnets(ends, 0), vec![net("0.0.0.0/0"), net("::/0")]);
}

#[test]
fn split_keeps_networks_of_a_shorter_family() {
    let nets = vec![net("10.0.0.0/8"), net("2001:db8::/46")];
    let parts = split_subnets(&nets, 48);
    assert_eq!(parts.len(), 5);
    assert_eq!(parts[0], net("10.0.0.0/8"));
    assert_eq!(parts[4], net("2001:db8:3::/48"));
}

#[test]
fn split_covers_the_same_addresses() {
    let parts = split_subnets(&vec![net("192.0.2.0/24")], 26);
    for last in 0u32..=255 {
        let ip = IpAddr::V4(0xC000_0200 + last);
        assert_eq!(parts.iter().filter(|p| p.contains(&ip)).count(), 1);
    }
    assert!(!parts.iter().any(|p| p.contains(&IpAddr::V4(0xC000_0300))));
}

#[test]
fn networks_know_their_bounds() {
    let n = net("192.168.1.77/24");
    assert_eq!(n.network(), IpAddr::V4(0xC0A8_0100));
    assert_eq!(n.broadcast(), IpAddr::V4(0xC0A8_01FF));
    assert_eq!(n.prefix_len(), 24);
    assert!(!n.contains(&IpAddr::V6(0xC0A8_0100)));
    let all = net("::/0");
    assert_eq!(all.network(), IpAddr::V6(0));
    assert_eq!(all.broadcast(), IpAddr::V6(u128::MAX));
    assert!(IpAddr::V4(1).is_ipv4());
}

#[test]
fn networks_split_only_into_longer_prefixes() {
    assert_eq!(net("10.0.0.0/24").subnets(23), Err(PrefixLenError {}));
    assert_eq!(net("10.0.0.0/24").subnets(33), Err(PrefixLenError {}));
    assert_eq!(
        net("10.0.0.0/30").subnets(32).unwrap(),
        vec![net("10.0.0.0/32"), net("10.0.0.1/32"), net("10.0.0.2/32"), net("10.0.0.3/32")]
    );
    assert_eq!(net("10.0.0.9/24").subnets(24).unwrap(), vec![net("10.0.0.0/24")]);
    assert_eq!(net("::/0").subnets(1).unwrap(), vec![net("::/1"), net("8000::/1")]);
}

#[test]
fn text_that_is_no_network() {
    assert_eq!(parse_ipnet("10.0.0.0/33"), None);
    assert_eq!(parse_ipnet("10.0.0.0"), None);
    assert_eq!(parse_ip("10.0.0.1/8"), None);
    assert_eq!(parse_ip("10.0.0.1"), Some(IpAddr::V4(0x0A00_0001)));
}

#[test]
fn test_generate_random_ip_in_subnet_v4() {
    let subnet = net("192.168.1.0/24");
    let mut rng = rand::thread_rng();
    for _ in 0..100 {
        let ip = generate_random_ip_in_subnet(&subnet, &mut rng);
        assert!(subnet.contains(&ip));
        if let IpAddr::V4(ip_u32) = ip {
            assert!(ip_u32 > 0xC0A80100);
            assert!(ip_u32 < 0xC0A801FF);
        }
    }
}

#[test]
fn test_generate_random_ip_in_small_subnet() {
    let subnet = net("192.168.1.0/31");
    let mut rng = rand::thread_rng();
    let ip = generate_random_ip_in_subnet(&subnet, &mut rng);
    assert!(subnet.contains(&ip));
}

#[test]
fn test_generate_random_ip_in_subnet_v6() {
    let subnet = net("2001:db8::/64");
    let mut rng = rand::thread_rng();
    for _ in 0..100 {
        let ip = generate_random_ip_in_subnet(&subnet, &mut rng);
        assert!(subnet.contains(&ip));
        assert!(!ip.is_ipv4());
    }
}

#[test]
fn test_generate_random_ip_in_small_subnet_v6() {
    let subnet = net("2001:db8::0/127");
    let mut rng = rand::thread_rng();
    let ip = generate_random_ip_in_subnet(&subnet, &mut rng);
    assert!(subnet.contains(&ip));
    assert!(!ip.is_ipv4());
}

#[test]
fn test_generate_random_ip_in_single_host_v6() {
    let subnet = net("2001:db8::1/128");
    let mut rng = rand::thread_rng();
    let ip = generate_random_ip_in_subnet(&subnet, &mut rng);
    assert!(subnet.contains(&ip));
    assert_eq!(ip, parse_ip("2001:db8::1").unwrap());
}

#[test]
fn test_generate_random_ip_in_single_host_v4() {
    let subnet = net("192.168.1.100/32");
    let mut rng = rand::thread_rng();
    let ip = generate_random_ip_in_subnet(&subnet, &mut rng);
    assert!(subnet.contains(&ip));
    assert_eq!(ip, parse_ip("192.168.1.100").unwrap());
}

#[test]
fn hosts_leave_out_both_ends() {
    assert_eq!(host_range(&net("10.0.0.0/30")), (0x0A00_0001, 0x0A00_0002));
    assert_eq!(host_range(&net("10.0.0.0/31")), (0x0A00_0000, 0x0A00_0001));
}

#[test]
fn every_round_visits_every_network() {
    let mut rng = rand::thread_rng();
    let nets = vec![net("10.0.0.0/24"), net("10.0.1.0/24"), net("10.0.2.0/24")];
    let targets = generate_scan_targets(nets.clone(), 4, &mut rng);
    assert_eq!(targets.len(), 12);
    for round in targets.chunks(3) {
        for n in &nets {
            assert_eq!(round.iter().filter(|t| t.0 == *n).count(), 1);
        }
    }
    assert!(targets.iter().all(|t| t.0.contains(&t.1)));
}

#[test]
fn probes_are_judged() {
    let ok = judge_probe(200, 42, Some("colo=LAX"));
    assert_eq!(ok, Some((42, "LAX".to_string())));
    assert_eq!(judge_probe(299, 1, Some("colo=X")), Some((1, "X".to_string())));
    assert_eq!(judge_probe(300, 42, Some("colo=LAX")), None);
    assert_eq!(judge_probe(199, 42, Some("colo=LAX")), None);
    assert_eq!(judge_probe(200, 42, Some("none")), None);
    assert_eq!(judge_probe(200, 42, None), None);
}

#[test]
fn probe_runs_sum_up() {
    let mut run = ProbeRun::new();
    assert_eq!(run.record(Some((100, "LAX".to_string()))), Some(50));
    assert_eq!(run.record(None), Some(50));
    assert_eq!(run.record(Some((110, "SJC".to_string()))), Some(50));
    assert_eq!(run.record(Some((105, "SJC".to_string()))), Some(50));
    assert_eq!(run.record(Some((115, "SEA".to_string()))), None);
    let ip = parse_ip("1.2.3.4").unwrap();
    let q = run.quality(ip, single(80.0), 9).unwrap();
    assert_eq!(q.ip, ip);
    assert_eq!(q.latency, 107);
    assert_eq!(q.jitter, 8);
    assert_eq!(q.colo, "SEA");
    assert_eq!(q.loss_rate, single(1.0 - 4.0f32 / 5.0f32));
    assert_eq!(q.score, single(80.0));
    assert_eq!(q.last_updated, 9);
}

#[test]
fn failed_probe_runs_give_nothing() {
    let mut run = ProbeRun::new();
    for _ in 0..5 {
        run.record(None);
    }
    assert!(run.quality(IpAddr::V4(1), single(0.0), 0).is_none());
}

#[test]
fn loss_rates_are_those_of_single_precision() {
    for successes in 0..=5usize {
        let expected = 1.0f32 - (successes as f32 / 5.0f32);
        assert_eq!(loss_rate(successes), single(expected));
    }
}

#[test]
fn latencies_keep_their_low_bits() {
    let q = quality("1.2.3.4", (1u128 << 64) + 5, 1u128 << 65, 1.0, "LAX");
    assert_eq!(q.latency, 5);
    assert_eq!(q.jitter, 0);
}

#[test]
fn results_are_grouped_by_network() {
    let mut results = ScanResults::new();
    let a = net("10.0.0.0/24");
    let b = net("10.0.0.0/25");
    results.insert(a, quality("10.0.0.1", 1, 0, 1.0, "A"));
    results.insert(b, quality("10.0.0.2", 2, 0, 1.0, "B"));
    results.insert(a, quality("10.0.0.3", 3, 0, 1.0, "C"));
    let groups = results.groups();
    assert_eq!(groups.len(), 2);
    assert_eq!(groups[0].0, a);
    assert_eq!(groups[0].1.len(), 2);
    assert_eq!(groups[0].1[1].latency, 3);
    assert_eq!(groups[1].0, b);
    assert_eq!(groups[1].1.len(), 1);
}

#[test]
fn batches_are_flushed_in_order() {
    let a = net("10.0.0.0/24");
    let mut batch = vec![
        (a, quality("10.0.0.1", 1, 0, 1.0, "A")),
        (a, quality("10.0.0.2", 2, 0, 1.0, "A")),
    ];
    let mut results = ScanResults::new();
    flush_batch(&mut batch, &mut results);
    assert!(batch.is_empty());
    let latencies: Vec<u64> = results.groups()[0].1.iter().map(|q| q.latency).collect();
    assert_eq!(latencies, vec![1, 2]);
}

#[test]
fn scans_count_and_keep_everything() {
    let a = net("10.0.0.0/24");
    let mut progress = ScanProgress::new();
    for i in 0..250u128 {
        let found = if i % 2 == 0 { Some(quality("10.0.0.1", i, 0, 1.0, "A")) } else { None };
        progress.record(a, found);
        assert!(progress.batch.len() < 100);
    }
    let (success, total, results) = progress.finish();
    assert_eq!((success, total), (125, 250));
    let samples = &results.groups()[0].1;
    assert_eq!(samples.len(), 125);
    assert!(samples.iter().enumerate().all(|(i, q)| q.latency == 2 * i as u64));
}

#[test]
fn scans_need_targets_and_a_url() {
    assert!(plan_scan(0, "http://example.com/trace").is_none());
    assert!(plan_scan(3, "not a url").is_none());
    let e = plan_scan(3, "https://example.com/trace").unwrap();
    assert_eq!((e.host.as_str(), e.port), ("example.com", 443));
    let e = plan_scan(3, "http://example.com:8080/").unwrap();
    assert_eq!((e.host.as_str(), e.port), ("example.com", 8080));
    let e = endpoint_of_parts(UrlParts { host: None, port: None });
    assert_eq!((e.host.as_str(), e.port), ("", 80));
}

#[test]
fn urls_are_read() {
    let parts = parse_url("http://example.com/x").unwrap();
    assert_eq!(parts.host, Some("example.com".to_string()));
    assert_eq!(parts.port, Some(80));
    assert!(is_url("ftp://example.com"));
    assert!(!is_url("example.com"));
}

#[test]
fn networks_are_summarized() {
    let groups = vec![
        (
            net("1.2.3.0/24"),
            vec![quality("1.2.3.1", 100, 10, 80.0, "LAX"), quality("1.2.3.2", 121, 15, 90.0, "LAX")],
        ),
        (net("1.2.4.0/24"), vec![]),
    ];
    let means = vec![(single(85.0), single(0.25)), (single(0.0), single(0.0))];
    let records = summarize(&groups, &means, 7);
    assert_eq!(records.len(), 1);
    assert_eq!(records[0].subnet, net("1.2.3.0/24"));
    assert_eq!(records[0].avg_latency, 110);
    assert_eq!(records[0].avg_jitter, 12);
    assert_eq!(records[0].score, single(85.0));
    assert_eq!(records[0].avg_loss_rate, single(0.25));
    assert_eq!(records[0].last_updated, 7);
}

#[test]
fn results_are_kept_and_cleaned() {
    let mut manager = IpManager::new();
    let mut old = record("10.0.0.0/24", 99.0);
    old.last_updated = 0;
    manager.update_subnet(old);
    let mut groups = Vec::new();
    let mut means = Vec::new();
    for i in 1..=4u32 {
        let subnet = IpNet::V4 { addr: 0x0A00_0000 + (i << 8), prefix_len: 24 };
        groups.push((subnet, vec![quality("10.0.0.1", 1, 0, i as f32, "A")]));
        means.push((single(i as f32), single(0.0)));
    }
    let now = 100_000_000_000;
    let counts = aggregate_and_persist(&mut manager, &groups, &means, now, 50, 3, |n| n / 2);
    assert_eq!(counts, Persisted { updated: 4, expired: 1, evicted: 1 });
    assert_eq!(manager.subnet_count(), 3);
    assert_eq!(manager.best_cache_len(), 1);
    let left = manager.get_all_subnets();
    assert!(left.iter().all(|q| q.score != single(1.0) && q.score != single(99.0)));
}

#[test]
fn hot_spots_are_the_best_networks() {
    let records = vec![
        record("10.0.0.0/24", 1.0),
        record("10.0.1.0/24", 3.0),
        record("10.0.2.0/24", 2.0),
        record("10.0.3.0/24", 3.0),
    ];
    assert_eq!(
        analyze_hot_spots(&records, 3),
        vec![net("10.0.1.0/24"), net("10.0.3.0/24"), net("10.0.2.0/24")]
    );
    assert_eq!(analyze_hot_spots(&records, 9).len(), 4);
    assert!(analyze_hot_spots(&records, 0).is_empty());
}

#[test]
fn strategies_choose_their_phases() {
    let mut strategy = ScanStrategyConfig::default();
    assert_eq!(first_phase(&strategy), Phase { mask: 24, samples: 3 });
    strategy.strategy_type = ScanStrategyType::Adaptive;
    assert_eq!(first_phase(&strategy), Phase { mask: 20, samples: 1 });
    assert_eq!(focused_phase(&strategy), Phase { mask: 24, samples: 3 });
}

#[test]
fn adaptive_scans_stop_without_hot_spots() {
    match after_initial_scan(2, 9, vec![]) {
        AdaptiveStep::Abort(stats) => assert_eq!(
            stats,
            ScanStats { total_scanned: 9, success_count: 2, updated_subnets: 0 }
        ),
        other => panic!("{:?}", other),
    }
    match after_initial_scan(2, 9, vec![net("10.0.0.0/24")]) {
        AdaptiveStep::Focus(nets) => assert_eq!(nets.len(), 1),
        other => panic!("{:?}", other),
    }
    assert_eq!(
        adaptive_stats((2, 9), (3, 10), 4),
        ScanStats { total_scanned: 19, success_count: 5, updated_subnets: 4 }
    );
    assert_eq!(ScanStats::default().total_scanned, 0);
}

#[test]
fn fetched_networks_come_first() {
    let set = vec![net("10.0.0.0/8")];
    let fetched = vec![net("11.0.0.0/8")];
    assert_eq!(choose_root_cidrs(set.clone(), Some(fetched.clone())), fetched);
    assert_eq!(choose_root_cidrs(set.clone(), Some(vec![])), set);
    assert_eq!(choose_root_cidrs(set.clone(), None), set);
}

#[test]
fn concurrency_has_a_floor() {
    assert_eq!(effective_concurrency(0), 50);
    assert_eq!(effective_concurrency(50), 50);
    assert_eq!(effective_concurrency(51), 51);
}

#[test]
fn background_scans_follow_their_events() {
    assert!(runs_background_scan(true, false));
    assert!(runs_background_scan(false, true));
    assert!(!runs_background_scan(false, false));
    let wait = BackgroundStep::Wait { secs: 60 };
    assert_eq!(background_step(BackgroundEvent::Started { scan_on_start: true }, 60), BackgroundStep::Scan);
    assert_eq!(background_step(BackgroundEvent::Started { scan_on_start: false }, 60), wait);
    assert_eq!(background_step(BackgroundEvent::ScanDone, 60), wait);
    assert_eq!(background_step(BackgroundEvent::IntervalPassed, 60), BackgroundStep::Scan);
    assert_eq!(background_step(BackgroundEvent::ShutDown, 60), BackgroundStep::Stop);
}

#[test]
fn test_calculate_top_k() {
    let k = |total: usize, percent: f64| calculate_top_k(total, (total as f64 * percent).ceil() as usize);
    assert_eq!(k(100, 0.1), 10);
    assert_eq!(k(100, 0.01), 1);
    assert_eq!(k(100, 1.0), 100);
    assert_eq!(k(5, 0.1), 1);
}
