use tcp_forwarder::analytics::{get_colo_ranking, rank_colos, ColoStats};
use tcp_forwarder::float_bits::{Double, Single};
use tcp_forwarder::metrics::ForwardMetrics;
use tcp_forwarder::model::{determine_primary_colo, IpQuality, SubnetQuality};
use tcp_forwarder::net::{parse_ip, parse_ipnet, IpNet};
use tcp_forwarder::pool::PoolStatsSnapshot;
use tcp_forwarder::sort::rank;
use tcp_forwarder::state::{generate_ips_from_subnets, select_subnets, IpManager, PermitChange};
use tcp_forwarder::web::{
    get_debug, get_pool_stats, get_stats, get_status, get_subnets_api, health_check, sort_by_score,
};

fn net(text: &str) -> IpNet {
    parse_ipnet(text).unwrap()
}

fn single(value: f32) -> Single {
    Single { bits: value.to_bits() }
}

fn value(s: Single) -> f32 {
    f32::from_bits(s.bits)
}

fn mean(values: &Vec<Single>) -> Single {
    let sum: f32 = values.iter().map(|v| value(*v)).sum();
    single(sum / values.len() as f32)
}

fn record(text: &str, colo: &str, score: f32, latency: u64, updated: i128) -> SubnetQuality {
    SubnetQuality {
        subnet: net(text),
        score: single(score),
        avg_latency: latency,
        avg_jitter: 10,
        avg_loss_rate: single(0.0),
        sample_count: 1,
        colo: colo.to_string(),
        last_updated: updated,
    }
}

fn sample(ip: &str, latency: u128, jitter: u128, colo: &str) -> IpQuality {
    IpQuality::new(
        parse_ip(ip).unwrap(),
        latency,
        jitter,
        single(0.0),
        colo.to_string(),
        single(50.0),
        0,
    )
}

#[test]
fn test_ip_manager_new() {
    let manager = IpManager::new();
    assert_eq!(manager.subnet_count(), 0);
}

#[test]
fn records_replace_records_of_the_same_network() {
    let mut manager = IpManager::default();
    manager.update_subnet(record("10.0.0.0/24", "LAX", 1.0, 1, 0));
    manager.update_subnet(record("10.0.0.0/24", "SJC", 2.0, 2, 0));
    manager.update_subnet(record("10.0.0.0/25", "SJC", 3.0, 2, 0));
    assert_eq!(manager.subnet_count(), 2);
    let all = manager.get_all_subnets();
    assert!(all.iter().any(|q| q.subnet == net("10.0.0.0/24") && q.colo == "SJC"));
}

#[test]
fn old_records_expire() {
    let mut manager = IpManager::new();
    manager.update_subnet(record("10.0.0.0/24", "LAX", 1.0, 1, 999));
    manager.update_subnet(record("10.0.1.0/24", "LAX", 1.0, 1, 1_000));
    let now = 5_000_001_000;
    assert_eq!(manager.remove_expired(now, 0), 0);
    assert_eq!(manager.remove_expired(now, 5), 1);
    assert_eq!(manager.get_all_subnets()[0].subnet, net("10.0.1.0/24"));
    assert_eq!(manager.remove_expired(now, 5), 0);
    // A lifetime of minus one second puts the limit after now.
    assert_eq!(manager.remove_expired(now, u64::MAX), 1);
}

#[test]
fn the_worst_records_are_evicted() {
    let mut manager = IpManager::new();
    manager.update_subnet(record("10.0.0.0/24", "LAX", 5.0, 1, 1));
    manager.update_subnet(record("10.0.1.0/24", "LAX", 1.0, 1, 9));
    manager.update_subnet(record("10.0.2.0/24", "LAX", 5.0, 1, 2));
    manager.update_subnet(record("10.0.3.0/24", "LAX", 9.0, 1, 0));
    assert_eq!(manager.evict_if_needed(4), 0);
    assert_eq!(manager.evict_if_needed(2), 2);
    let mut left: Vec<IpNet> = manager.get_all_subnets().iter().map(|q| q.subnet).collect();
    left.sort_by_key(|n| format!("{:?}", n));
    assert_eq!(left, vec![net("10.0.2.0/24"), net("10.0.3.0/24")]);
    assert_eq!(manager.cleanup_subnets(0, 0, 1), (0, 1));
    assert_eq!(manager.cleanup_subnets(0, 0, 1), (0, 0));
}

#[test]
fn best_networks_are_those_with_the_highest_scores() {
    let mut manager = IpManager::new();
    manager.recalculate_best_subnets(5);
    assert_eq!(manager.best_cache_len(), 0);
    for i in 0..10u32 {
        let mut q = record("10.0.0.0/24", "LAX", i as f32, 1, 0);
        q.subnet = IpNet::V4 { addr: 0x0A00_0000 + (i << 8), prefix_len: 24 };
        manager.update_subnet(q);
    }
    manager.recalculate_best_subnets(0);
    assert_eq!(manager.best_cache_len(), 1);
    manager.recalculate_best_subnets(99);
    assert_eq!(manager.best_cache_len(), 10);
    manager.recalculate_best_subnets(3);
    assert_eq!(manager.best_cache_len(), 3);
    let ips = manager.get_target_ips(&[], 10, 1);
    assert_eq!(ips.len(), 3);
    for (ip, i) in ips.iter().zip([9u32, 8, 7]) {
        let subnet = IpNet::V4 { addr: 0x0A00_0000 + (i << 8), prefix_len: 24 };
        assert!(subnet.contains(ip));
    }
}

#[test]
fn targets_come_from_different_networks() {
    let mut manager = IpManager::new();
    let nets = ["10.0.0.0/24", "10.0.1.0/24", "10.0.2.0/24", "10.0.3.0/24"];
    for n in nets {
        manager.update_subnet(record(n, "LAX", 1.0, 1, 0));
    }
    manager.recalculate_best_subnets(4);
    for _ in 0..50 {
        let ips = manager.get_target_ips(&[], 3, 1);
        assert_eq!(ips.len(), 3);
        for n in nets {
            assert!(ips.iter().filter(|ip| net(n).contains(ip)).count() <= 1);
        }
    }
}

#[test]
fn targets_come_from_allowed_data_centres() {
    let mut manager = IpManager::new();
    assert!(manager.get_target_ips(&[], 3, 2).is_empty());
    manager.update_subnet(record("10.0.0.0/24", "LAX", 1.0, 1, 0));
    manager.update_subnet(record("10.0.1.0/24", "SJC", 2.0, 1, 0));
    manager.update_subnet(record("10.0.2.0/24", "SJC", 3.0, 1, 0));
    manager.recalculate_best_subnets(3);
    let colos = vec!["LAX".to_string()];
    let ips = manager.get_target_ips(&colos, 3, 2);
    assert_eq!(ips.len(), 2);
    assert!(ips.iter().all(|ip| net("10.0.0.0/24").contains(ip)));
    assert!(manager.get_target_ips(&["SEA".to_string()], 3, 2).is_empty());
    let best = vec![net("10.0.2.0/24"), net("10.0.0.0/24"), net("10.9.0.0/24")];
    assert_eq!(manager.filter_subnets_by_colo(&best, &colos), vec![net("10.0.0.0/24")]);
    assert_eq!(manager.filter_subnets_by_colo(&best, &[]), best);
    assert_eq!(manager.get_target_ips(&[], 2, 3).len(), 6);
    assert!(manager.get_target_ips(&[], 0, 3).is_empty());
}

#[test]
fn selections_have_no_repetition() {
    let mut rng = rand::thread_rng();
    let nets: Vec<IpNet> =
        (0..9u32).map(|i| IpNet::V4 { addr: i << 8, prefix_len: 24 }).collect();
    let chosen = select_subnets(&nets, 5, &mut rng);
    assert_eq!(chosen.len(), 5);
    for (i, a) in chosen.iter().enumerate() {
        assert!(nets.contains(a));
        assert!(!chosen[i + 1..].contains(a));
    }
    assert_eq!(select_subnets(&nets, 9, &mut rng), nets);
    let ips = generate_ips_from_subnets(&nets, 2, &mut rng);
    assert_eq!(ips.len(), 18);
    assert!(ips.iter().enumerate().all(|(i, ip)| nets[i / 2].contains(ip)));
}

#[test]
fn loading_gives_back_what_was_listed() {
    let mut manager = IpManager::new();
    manager.update_subnet(record("10.0.0.0/24", "LAX", 1.0, 1, 0));
    manager.update_subnet(record("10.0.1.0/24", "SJC", 2.0, 1, 0));
    let saved = manager.get_all_subnets();
    let mut other = IpManager::new();
    other.update_subnet(record("10.7.0.0/24", "SEA", 9.0, 1, 0));
    other.load(saved, |total| total / 2);
    assert_eq!(other.subnet_count(), 2);
    assert_eq!(other.best_cache_len(), 1);
    let colos: Vec<String> = get_status(&other).iter().map(|q| q.colo.clone()).collect();
    assert_eq!(colos, vec!["SJC".to_string(), "LAX".to_string()]);
}

#[test]
fn permits_follow_the_limit() {
    assert_eq!(IpManager::set_max_open_files(1024, 2048), PermitChange::Add(1024));
    assert_eq!(IpManager::set_max_open_files(1024, 2), PermitChange::Forget(1022));
    assert_eq!(IpManager::set_max_open_files(5, 5), PermitChange::Keep);
}

#[test]
fn test_subnet_quality_from_samples() {
    let samples = vec![sample("1.2.3.1", 100, 10, "LAX"), sample("1.2.3.2", 120, 15, "LAX")];
    let subnet = net("1.2.3.0/24");
    let quality = SubnetQuality::new(subnet, &samples, single(50.0), single(0.0), 0);
    assert_eq!(quality.sample_count, 2);
    assert_eq!(quality.avg_latency, 110);
    assert_eq!(quality.colo, "LAX");
}

#[test]
fn test_determine_primary_colo() {
    let samples = vec![
        sample("1.2.3.1", 100, 10, "LAX"),
        sample("1.2.3.2", 100, 10, "SJC"),
        sample("1.2.3.3", 100, 10, "LAX"),
    ];
    let colo = determine_primary_colo(&samples);
    assert_eq!(colo, "LAX");
}

#[test]
fn test_empty_subnet_quality() {
    let subnet = net("1.2.3.0/24");
    let quality = SubnetQuality::new(subnet, &[], single(7.0), single(7.0), 0);
    assert_eq!(quality.sample_count, 0);
    assert_eq!(quality.score, single(0.0));
    assert_eq!(quality.colo, "UNKNOWN");
}

#[test]
fn primary_colo_of_nothing() {
    assert_eq!(determine_primary_colo(&[]), "UNKNOWN");
    let copy = sample("1.2.3.1", 1, 2, "LAX").clone();
    assert_eq!((copy.latency, copy.jitter, copy.colo.as_str()), (1, 2, "LAX"));
}

#[test]
fn test_colo_stats() {
    let mut stats = ColoStats::default();
    let subnet1 = record("1.2.3.0/24", "LAX", 80.0, 100, 0);
    let subnet2 = record("1.2.3.0/24", "LAX", 90.0, 120, 0);
    stats.add(&subnet1);
    stats.add(&subnet2);
    assert_eq!(stats.count, 2);
    assert_eq!(value(stats.avg_score(mean)), 85.0);
    assert_eq!(stats.avg_latency(), 110);
}

#[test]
fn sums_of_a_data_centre_stop_at_the_largest_value() {
    let mut stats = ColoStats::default();
    assert_eq!(stats.avg_latency(), 0);
    assert_eq!(stats.avg_jitter(), 0);
    assert_eq!(value(stats.avg_score(mean)), 0.0);
    assert_eq!(value(stats.avg_loss_rate(mean)), 0.0);
    stats.add(&record("1.2.3.0/24", "LAX", 1.0, u64::MAX, 0));
    stats.add(&record("1.2.4.0/24", "LAX", 1.0, 10, 0));
    assert_eq!(stats.avg_latency(), u64::MAX / 2);
    assert_eq!(stats.avg_jitter(), 10);
}

#[test]
fn data_centres_are_ranked_by_score() {
    let subnets = vec![
        record("10.0.0.0/24", "LAX", 80.0, 100, 0),
        record("10.0.1.0/24", "SJC", 95.0, 50, 0),
        record("10.0.2.0/24", "LAX", 90.0, 121, 0),
    ];
    let ranking = rank_colos(&subnets, mean);
    assert_eq!(ranking.len(), 2);
    assert_eq!(ranking[0].colo, "SJC");
    assert_eq!(ranking[1].colo, "LAX");
    assert_eq!(value(ranking[1].avg_score), 85.0);
    assert_eq!(ranking[1].avg_latency, 110);
    assert_eq!(ranking[1].subnet_count, 2);
    let mut manager = IpManager::new();
    for q in subnets {
        manager.update_subnet(q);
    }
    let again = get_colo_ranking(&manager, mean);
    assert_eq!(again.len(), 2);
    assert_eq!(again[0].colo, "SJC");
}

#[test]
fn status_pages_show_the_best_first() {
    let mut manager = IpManager::new();
    manager.update_subnet(record("10.0.0.0/24", "LAX", 80.0, 100, 0));
    manager.update_subnet(record("10.0.1.0/24", "SJC", 95.0, 50, 0));
    manager.recalculate_best_subnets(1);
    let shown = get_status(&manager);
    assert_eq!(shown[0].colo, "SJC");
    let page = get_subnets_api(&manager);
    assert_eq!(page.total_subnets, 2);
    assert_eq!(page.subnets[1].colo, "LAX");
    let health = health_check(&manager, "0.2.8");
    assert_eq!((health.status.as_str(), health.version.as_str(), health.subnet_count), ("healthy", "0.2.8", 2));
    let mut metrics = ForwardMetrics::new();
    metrics.inc_pool_hit();
    assert_eq!(get_stats(&metrics).pool_hits, 1);
    let debug = get_debug(&manager, None, &metrics);
    assert_eq!((debug.subnet_count, debug.best_subnets), (2, 1));
    assert!(debug.pool.is_none());
    assert_eq!(debug.forward.pool_hits, 1);
}

#[test]
fn the_pool_page_is_missing_without_a_pool() {
    assert_eq!(get_pool_stats(None), (404, None));
    let snapshot = PoolStatsSnapshot {
        pool_size: 5,
        total_acquired: 128,
        hits: 110,
        misses: 18,
        expired: 7,
        dead: 3,
        evicted: 0,
        cleaned: 10,
    };
    assert_eq!(get_pool_stats(Some(snapshot)), (200, Some(snapshot)));
}

#[test]
fn sorting_is_stable_and_total() {
    let records = vec![
        record("10.0.0.0/24", "a", f32::NAN, 1, 0),
        record("10.0.1.0/24", "b", 1.0, 1, 0),
        record("10.0.2.0/24", "c", 1.0, 1, 0),
        record("10.0.3.0/24", "d", -0.0, 1, 0),
        record("10.0.4.0/24", "e", 0.0, 1, 0),
        record("10.0.5.0/24", "f", f32::NEG_INFINITY, 1, 0),
    ];
    let order: Vec<String> = sort_by_score(&records).iter().map(|q| q.colo.clone()).collect();
    assert_eq!(order, vec!["a", "b", "c", "e", "d", "f"]);
    assert_eq!(rank(&vec![(2, 0), (1, 5), (1, 4), (2, 0)]), vec![2, 1, 0, 3]);
}

#[test]
fn bit_patterns_compare_as_numbers_do() {
    let values = [f32::NAN, -f32::NAN, f32::INFINITY, f32::NEG_INFINITY, 0.0, -0.0, 1.5, -1.5, f32::MIN_POSITIVE];
    for a in values {
        for b in values {
            let (x, y) = (single(a), single(b));
            assert_eq!(x.below(y), a < b);
            assert_eq!(x.at_least(y), a >= b);
            assert_eq!(x.total_key() < y.total_key(), a.total_cmp(&b).is_lt());
        }
        assert_eq!(single(a).is_nan(), a.is_nan());
    }
    let values = [f64::NAN, f64::INFINITY, f64::NEG_INFINITY, 0.0, -0.0, 1.5, -1.5, 0.1];
    for a in values {
        for b in values {
            let (x, y) = (Double { bits: a.to_bits() }, Double { bits: b.to_bits() });
            assert_eq!(x.below(y), a < b);
            assert_eq!(x.at_most(y), a <= b);
        }
        assert_eq!(Double { bits: a.to_bits() }.is_nan(), a.is_nan());
    }
}
