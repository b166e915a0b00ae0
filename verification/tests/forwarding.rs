use tcp_forwarder::config::{AppConfig, ConnectionPoolConfig};
use tcp_forwarder::float_bits::Single;
use tcp_forwarder::metrics::ForwardMetrics;
use tcp_forwarder::model::SubnetQuality;
use tcp_forwarder::net::{parse_ip, parse_ipnet, IpAddr};
use tcp_forwarder::pool::{
    add_conn_to_pool, next_failures, refill_candidates, refill_delay, refill_need, refill_step,
    ConnectionPool, PooledConnection, RefillEvent, RefillStep,
};
use tcp_forwarder::server::{
    after_fallback, after_pool, after_race, connection_accepted, connection_ended,
    fallback_candidate, race_candidates, ConnectError, ConnectStep, ConnectionEnd, FallbackEnd,
    Race, RaceEvent, RaceOutlook,
};
use tcp_forwarder::state::IpManager;

const SECOND: u128 = 1_000_000_000;

fn pool_config(pool_size: usize, max_idle_secs: u64) -> ConnectionPoolConfig {
    ConnectionPoolConfig {
        enabled: true,
        pool_size,
        min_idle: 1,
        max_idle_secs,
        refill_interval_ms: 1000,
    }
}

/// A connection is alive where its stream is `true`.
fn conn(ip: &str, created_at: u128) -> PooledConnection<bool> {
    PooledConnection { stream: true, ip: parse_ip(ip).unwrap(), created_at }
}

fn alive(stream: &bool) -> bool {
    *stream
}

fn manager_with(list: &[(&str, &str, f32)]) -> IpManager {
    let mut manager = IpManager::new();
    for (net, colo, score) in list {
        let mut q = SubnetQuality::empty(parse_ipnet(net).unwrap(), 0);
        q.colo = colo.to_string();
        q.score = Single { bits: score.to_bits() };
        manager.update_subnet(q);
    }
    manager.recalculate_best_subnets(list.len());
    manager
}

#[test]
fn test_pool_lifo() {
    let mut pool = ConnectionPool::new(pool_config(3, 10));

    pool.push(conn("1.1.1.1", 0));
    pool.push(conn("2.2.2.2", 0));
    pool.push(conn("3.3.3.3", 0));

    let (_, ip) = pool.acquire(0, alive).expect("Should acquire 3.3.3.3");
    assert_eq!(ip, parse_ip("3.3.3.3").unwrap());

    let (_, ip) = pool.acquire(0, alive).expect("Should acquire 2.2.2.2");
    assert_eq!(ip, parse_ip("2.2.2.2").unwrap());

    let (_, ip) = pool.acquire(0, alive).expect("Should acquire 1.1.1.1");
    assert_eq!(ip, parse_ip("1.1.1.1").unwrap());

    assert!(pool.acquire(0, alive).is_none());
}

#[test]
fn test_pool_eviction() {
    let mut pool = ConnectionPool::new(pool_config(2, 10));

    pool.push(conn("1.1.1.1", 0));
    pool.push(conn("2.2.2.2", 0));
    pool.push(conn("3.3.3.3", 0));

    let stats = pool.snapshot();
    assert_eq!(stats.evicted, 1);

    let (_, ip) = pool.acquire(0, alive).expect("Should acquire 3.3.3.3");
    assert_eq!(ip, parse_ip("3.3.3.3").unwrap());

    let (_, ip) = pool.acquire(0, alive).expect("Should acquire 2.2.2.2");
    assert_eq!(ip, parse_ip("2.2.2.2").unwrap());

    assert!(pool.acquire(0, alive).is_none());
}

#[test]
fn test_pool_purge_stale() {
    let mut pool = ConnectionPool::new(pool_config(5, 1));
    let now = 10 * SECOND;

    pool.push(conn("1.1.1.1", now));

    let mut conn2 = conn("2.2.2.2", now);
    conn2.created_at = now - 2 * SECOND;
    pool.push(conn2);

    pool.push(conn("3.3.3.3", now));

    assert_eq!(pool.current_size(), 3);

    let purged = pool.purge_stale(now, alive);
    assert_eq!(purged, 1);

    assert_eq!(pool.current_size(), 2);

    let (_, ip) = pool.acquire(now, alive).expect("Should acquire 3.3.3.3");
    assert_eq!(ip, parse_ip("3.3.3.3").unwrap());

    let (_, ip) = pool.acquire(now, alive).expect("Should acquire 1.1.1.1");
    assert_eq!(ip, parse_ip("1.1.1.1").unwrap());
}

#[test]
fn stale_and_dead_connections_are_passed_over() {
    let mut pool = ConnectionPool::new(pool_config(5, 1));
    pool.push(conn("1.1.1.1", 10 * SECOND));
    pool.push(conn("2.2.2.2", 0));
    pool.push(PooledConnection { stream: false, ip: IpAddr::V4(3), created_at: 10 * SECOND });
    let (_, ip) = pool.acquire(10 * SECOND, alive).unwrap();
    assert_eq!(ip, parse_ip("1.1.1.1").unwrap());
    assert!(pool.acquire(10 * SECOND, alive).is_none());
    let stats = pool.snapshot();
    assert_eq!((stats.pool_size, stats.total_acquired, stats.hits, stats.misses), (0, 2, 1, 1));
    assert_eq!((stats.expired, stats.dead, stats.evicted, stats.cleaned), (1, 1, 0, 0));
    assert_eq!(stats.hits + stats.misses, stats.total_acquired);
}

#[test]
fn purging_counts_what_it_drops() {
    let mut pool = ConnectionPool::new(pool_config(5, 1));
    pool.push(PooledConnection { stream: false, ip: IpAddr::V4(1), created_at: 0 });
    pool.push(PooledConnection { stream: true, ip: IpAddr::V4(2), created_at: 0 });
    assert_eq!(pool.purge_stale(0, alive), 1);
    assert_eq!(pool.snapshot().cleaned, 1);
    assert_eq!(pool.purge_stale(0, alive), 0);
    assert_eq!(pool.current_size(), 1);
}

#[test]
fn connections_are_fresh_for_their_time() {
    let pool: ConnectionPool<bool> = ConnectionPool::new(pool_config(5, 1));
    assert!(pool.is_conn_fresh(&conn("1.1.1.1", 0), SECOND - 1));
    assert!(!pool.is_conn_fresh(&conn("1.1.1.1", 0), SECOND));
}

#[test]
fn pools_are_filled_up_to_their_size() {
    assert_eq!(refill_need(1, 3, 8), 2);
    assert_eq!(refill_need(1, 9, 8), 7);
    assert_eq!(refill_need(8, 9, 8), 0);
    let manager = manager_with(&[("10.0.0.0/24", "LAX", 1.0), ("10.0.1.0/24", "SJC", 2.0)]);
    let config = AppConfig::default();
    assert_eq!(refill_candidates(&manager, &config, 0, 1, 8).len(), 1);
    assert_eq!(refill_candidates(&manager, &config, 0, 9, 8).len(), 2);
    assert!(refill_candidates(&manager, &config, 8, 9, 8).is_empty());
    let mut pool = ConnectionPool::new(pool_config(5, 1));
    let mut filled = 0;
    add_conn_to_pool(&mut pool, None, &mut filled);
    add_conn_to_pool(&mut pool, Some(conn("1.1.1.1", 0)), &mut filled);
    assert_eq!((filled, pool.current_size()), (1, 1));
}

#[test]
fn filling_follows_its_events() {
    assert_eq!(
        refill_step(RefillEvent::Started, 0, 2),
        RefillStep::Fill { purge: false, target: 2 }
    );
    assert_eq!(
        refill_step(RefillEvent::Taken, 4, 2),
        RefillStep::Fill { purge: false, target: 5 }
    );
    assert_eq!(
        refill_step(RefillEvent::IntervalPassed, 4, 2),
        RefillStep::Fill { purge: true, target: 2 }
    );
    assert_eq!(refill_step(RefillEvent::ShutDown, 4, 2), RefillStep::Stop);
}

#[test]
fn pauses_double_up_to_half_a_minute() {
    assert_eq!(refill_delay(5000, 0), 5000);
    assert_eq!(refill_delay(5000, 1), 10000);
    assert_eq!(refill_delay(5000, 2), 20000);
    assert_eq!(refill_delay(5000, 3), 30000);
    assert_eq!(refill_delay(5000, 40), 30000);
    assert_eq!(refill_delay(60000, 3), 60000);
}

#[test]
fn failures_in_a_row_are_counted() {
    assert_eq!(next_failures(2, 3, 0), 3);
    assert_eq!(next_failures(2, 3, 1), 0);
    assert_eq!(next_failures(2, 0, 0), 0);
    assert_eq!(next_failures(u32::MAX, 1, 0), u32::MAX);
    let after_failure = refill_delay(5000, next_failures(1, 2, 0));
    assert!(after_failure >= refill_delay(5000, 1));
    assert_eq!(refill_delay(5000, next_failures(7, 2, 2)), 5000);
}

#[test]
fn races_start_one_after_the_other() {
    let (mut race, step) = Race::begin(3, 200);
    assert_eq!(step.start, Some(0));
    assert_eq!(step.outlook, RaceOutlook::Wait { delay_ms: Some(200) });
    let step = race.step(RaceEvent::DelayPassed);
    assert_eq!(step.start, Some(1));
    let step = race.step(RaceEvent::Failed);
    assert_eq!(step.start, Some(2));
    assert_eq!(step.outlook, RaceOutlook::Wait { delay_ms: None });
    let step = race.step(RaceEvent::Connected);
    assert_eq!(step.outlook, RaceOutlook::Won);
}

#[test]
fn races_are_lost_when_nothing_is_left() {
    let (mut race, _) = Race::begin(2, 200);
    let step = race.step(RaceEvent::Failed);
    assert_eq!(step.start, Some(1));
    let step = race.step(RaceEvent::Failed);
    assert_eq!(step.start, None);
    assert_eq!(step.outlook, RaceOutlook::Lost);
    let (_, step) = Race::begin(0, 200);
    assert_eq!(step.outlook, RaceOutlook::Lost);
    let (mut race, _) = Race::begin(2, 200);
    assert_eq!(race.step(RaceEvent::TimedOut).outlook, RaceOutlook::Lost);
}

#[test]
fn candidates_come_from_the_best_networks() {
    let manager = manager_with(&[("10.0.0.0/24", "LAX", 1.0), ("10.0.1.0/24", "SEA", 2.0)]);
    let config = AppConfig::default();
    let ips = race_candidates(&manager, &config).unwrap();
    assert_eq!(ips.len(), 2);
    assert!(ips.iter().all(|ip| parse_ipnet("10.0.0.0/24").unwrap().contains(ip)));
    let ip = fallback_candidate(&manager, &config).unwrap();
    assert!(parse_ipnet("10.0.0.0/24").unwrap().contains(&ip));
}

#[test]
fn without_networks_there_are_no_candidates() {
    let manager = IpManager::new();
    let config = AppConfig::default();
    assert_eq!(race_candidates(&manager, &config), Err(ConnectError::NoAvailableIps));
    assert_eq!(fallback_candidate(&manager, &config), Err(ConnectError::NoFallbackIps));
}

#[test]
fn last_attempts_end_in_three_ways() {
    assert_eq!(after_fallback(FallbackEnd::Connected), Ok(()));
    assert_eq!(after_fallback(FallbackEnd::Failed), Err(ConnectError::FallbackFailed));
    assert_eq!(after_fallback(FallbackEnd::TimedOut), Err(ConnectError::FallbackTimedOut));
}

#[test]
fn connections_are_counted() {
    let mut metrics = ForwardMetrics::new();
    connection_accepted(&mut metrics);
    connection_accepted(&mut metrics);
    connection_accepted(&mut metrics);
    assert_eq!(after_pool(&mut metrics, true), ConnectStep::Use);
    assert_eq!(after_pool(&mut metrics, false), ConnectStep::Race);
    assert_eq!(after_race(&mut metrics, true), ConnectStep::Use);
    assert_eq!(after_race(&mut metrics, false), ConnectStep::FallBack);
    connection_ended(&mut metrics, ConnectionEnd::Copied { tx: 10, rx: 20 });
    connection_ended(&mut metrics, ConnectionEnd::NotConnected(ConnectError::NoFallbackIps));
    let s = metrics.snapshot();
    assert_eq!((s.total_connections, s.active_connections), (3, 1));
    assert_eq!((s.pool_hits, s.race_successes, s.race_failures), (1, 1, 1));
    assert_eq!((s.bytes_tx, s.bytes_rx), (10, 20));
    connection_ended(&mut metrics, ConnectionEnd::Interrupted);
    assert_eq!(metrics.snapshot().active_connections, 0);
    metrics.add_bytes(u64::MAX, 0);
    assert_eq!(metrics.snapshot().bytes_tx, 9);
}
