//! The life of a connection.
use crate::forwarder::loadbalancer::{
    counted, ended_count, start_then_end, started_count, LoadBalanceAlgorithm, LoadBalancer,
    LoadBalancerState, NoActiveIps,
};
use crate::forwarder::metrics::{
    closed, connections_move_their_metrics, counted_by, one_more, opened, raised,
    record_connection_closed, record_connection_duration, record_connection_failed,
    record_connection_success, record_error, record_new_connection, record_pool_hit,
    record_pool_miss, record_transfer_bytes, updates_add_up, Metric, MetricUpdate,
};
use crate::net::IpAddr;
use crate::time::Duration;
use vstd::prelude::*;

verus! {

/// Milliseconds before the choice of a remote is tried again.
pub const RETRY_DELAY_MS: u64 = 500;

/// Milliseconds between two looks for a first remote.
pub const STARTUP_WAIT_MS: u64 = 200;

/// How often a first remote is looked for.
pub const STARTUP_ATTEMPTS: usize = 50;

/// Seconds that open connections get when the forwarder stops.
pub const SHUTDOWN_WAIT_SECS: u64 = 5;

/// What follows the choice of a remote.
#[derive(Clone, Copy, Debug, PartialEq, Eq, Structural)]
pub enum SelectionStep {
    /// Connect to this remote.
    Connect(IpAddr),
    /// Wait, then choose again.
    Retry { delay_ms: u64 },
    /// There is no remote.
    Fail,
}

/// What follows an attempt to choose a remote.
pub open spec fn selection_answer(
    attempt: usize,
    chosen: Result<IpAddr, NoActiveIps>,
) -> SelectionStep {
    match chosen {
        Ok(ip) => SelectionStep::Connect(ip),
        Err(_) => if attempt == 0 {
            SelectionStep::Retry { delay_ms: RETRY_DELAY_MS }
        } else {
            SelectionStep::Fail
        },
    }
}

/// Decides after a choice, counted from zero: where no remote is in use it is
/// tried once more.
pub fn after_selection(attempt: usize, chosen: Result<IpAddr, NoActiveIps>) -> (s: SelectionStep)
    ensures
        s == selection_answer(attempt, chosen),
{
    match chosen {
        Ok(ip) => SelectionStep::Connect(ip),
        Err(_) => if attempt == 0 {
            SelectionStep::Retry { delay_ms: RETRY_DELAY_MS }
        } else {
            SelectionStep::Fail
        },
    }
}

/// Whether a first remote is looked for again.
pub open spec fn awaits(attempts: usize, active: usize) -> bool {
    active == 0 && attempts < STARTUP_ATTEMPTS
}

/// Whether the start goes on looking for a first remote.
pub fn keeps_waiting(attempts: usize, active: usize) -> (b: bool)
    ensures
        b == awaits(attempts, active),
{
    active == 0 && attempts < STARTUP_ATTEMPTS
}

/// What an accepted connection, or one that could not be, changes.
pub open spec fn accept_updates(accepted: bool) -> Seq<MetricUpdate> {
    if accepted {
        opened()
    } else {
        seq![one_more(Metric::ErrorsTotal)]
    }
}

/// The changes to the metrics when a connection comes in, or fails to.
pub fn on_accept(accepted: bool) -> (updates: Vec<MetricUpdate>)
    ensures
        updates@ == accept_updates(accepted),
{
    if accepted {
        record_new_connection()
    } else {
        record_error()
    }
}

/// What a connection out of the pool, or one that was not in it, changes.
pub open spec fn pool_updates(hit: bool) -> Seq<MetricUpdate> {
    seq![
        one_more(
            if hit {
                Metric::PoolHits
            } else {
                Metric::PoolMisses
            },
        ),
    ]
}

/// The changes to the metrics after the pool of a remote was asked.
pub fn on_pool(hit: bool, ip: &str) -> (updates: Vec<MetricUpdate>)
    ensures
        updates@ == pool_updates(hit),
{
    if hit {
        record_pool_hit(ip)
    } else {
        record_pool_miss(ip)
    }
}

/// What an attempt to connect means for the score of the remote.
#[derive(Clone, Copy, Debug, PartialEq, Eq, Structural)]
pub enum ScoreEvent {
    Success(Duration),
    Failure,
}

/// What an attempt to connect means for the score of the remote, for its
/// connections and for the metrics. `took` is nothing where it failed: the
/// connection is over then, and the remote has one less.
pub fn on_connect(balancer: &mut LoadBalancer, ip: IpAddr, took: Option<Duration>) -> (r: (
    ScoreEvent,
    Vec<MetricUpdate>,
))
    requires
        old(balancer).state.wf(),
    ensures
        final(balancer).state.wf(),
        final(balancer).algorithm == old(balancer).algorithm,
        final(balancer).state.turn() == old(balancer).state.turn(),
        took is Some ==> *final(balancer) == *old(balancer),
        took is None ==> final(balancer).state.counts() == counted(
            old(balancer).algorithm,
            old(balancer).state.counts(),
            ip,
            ended_count(old(balancer).algorithm, old(balancer).state.count(ip)),
        ),
        took is None ==> final(balancer).state.count(ip) == ended_count(
            old(balancer).algorithm,
            old(balancer).state.count(ip),
        ),
        forall|other: IpAddr|
            other != ip ==> #[trigger] final(balancer).state.count(other) == old(
                balancer,
            ).state.count(other),
        match took {
            Some(span) => r.0 == ScoreEvent::Success(span) && r.1@ == seq![
                (MetricUpdate::Time { metric: Metric::ConnectionDuration, span }),
            ],
            None => r.0 == ScoreEvent::Failure && r.1@.len() == 0,
        },
{
    match took {
        Some(span) => (ScoreEvent::Success(span), record_connection_duration(span)),
        None => {
            balancer.on_connection_end(ip);
            (ScoreEvent::Failure, Vec::new())
        },
    }
}

/// An attempt to connect that fails leaves the count of the remote as it was
/// before the connection started, as long as the count does not start over.
pub proof fn failed_attempt_leaves_count(
    algorithm: LoadBalanceAlgorithm,
    before: LoadBalancerState,
    started: LoadBalancerState,
    failed: LoadBalancerState,
    ip: IpAddr,
)
    requires
        before.count(ip) < usize::MAX,
        started.count(ip) == started_count(algorithm, before.count(ip)),
        failed.count(ip) == ended_count(algorithm, started.count(ip)),
    ensures
        failed.count(ip) == before.count(ip),
{
    start_then_end(algorithm, before.count(ip));
}

/// Ends the transfer of a connection: the remote has one connection less, and
/// the bytes of both directions are noted together. `bytes` is nothing where
/// the transfer broke off.
pub fn on_transfer_end(balancer: &mut LoadBalancer, ip: IpAddr, bytes: Option<(u64, u64)>) -> (r: (
    bool,
    Vec<MetricUpdate>,
))
    requires
        old(balancer).state.wf(),
        bytes matches Some(b) ==> b.0 + b.1 <= u64::MAX,
    ensures
        final(balancer).state.wf(),
        final(balancer).algorithm == old(balancer).algorithm,
        final(balancer).state.turn() == old(balancer).state.turn(),
        final(balancer).state.counts() == counted(
            old(balancer).algorithm,
            old(balancer).state.counts(),
            ip,
            ended_count(old(balancer).algorithm, old(balancer).state.count(ip)),
        ),
        final(balancer).state.count(ip) == ended_count(
            old(balancer).algorithm,
            old(balancer).state.count(ip),
        ),
        forall|other: IpAddr|
            other != ip ==> #[trigger] final(balancer).state.count(other) == old(
                balancer,
            ).state.count(other),
        r.0 == (bytes is Some),
        match bytes {
            Some(b) => r.1@ == seq![
                (MetricUpdate::Amount {
                    metric: Metric::TransferBytes,
                    value: (b.0 + b.1) as u64,
                }),
            ],
            None => r.1@.len() == 0,
        },
{
    balancer.on_connection_end(ip);
    match bytes {
        Some((to_remote, to_client)) => (true, record_transfer_bytes(to_remote + to_client)),
        None => (false, Vec::new()),
    }
}

/// What the end of a connection changes.
pub open spec fn over_updates(success: bool) -> Seq<MetricUpdate> {
    closed() + if success {
        seq![one_more(Metric::ConnectionsSuccessful)]
    } else {
        seq![one_more(Metric::ConnectionsFailed), one_more(Metric::ErrorsTotal)]
    }
}

/// The changes to the metrics when a connection is over.
pub fn on_connection_over(success: bool) -> (updates: Vec<MetricUpdate>)
    ensures
        updates@ == over_updates(success),
{
    let mut updates: Vec<MetricUpdate> = record_connection_closed();
    let mut result: Vec<MetricUpdate> = if success {
        record_connection_success()
    } else {
        record_connection_failed()
    };
    updates.append(&mut result);
    updates
}

/// A chosen remote is connected to. Where there is none, one is chosen again
/// after half a second, once; then the connection fails.
pub proof fn choice_is_tried_twice(attempt: usize, ip: IpAddr, none: NoActiveIps)
    ensures
        selection_answer(attempt, Ok(ip)) == SelectionStep::Connect(ip),
        attempt == 0 ==> selection_answer(attempt, Err(none)) == (SelectionStep::Retry {
            delay_ms: 500,
        }),
        attempt > 0 ==> selection_answer(attempt, Err(none)) is Fail,
{
}

/// A first remote is looked for fifty times, and no more once there is one.
pub proof fn first_remote_is_awaited(attempts: usize, active: usize)
    ensures
        active > 0 ==> !awaits(attempts, active),
        active == 0 ==> (awaits(attempts, active) <==> attempts < 50),
{
}

/// A connection that was accepted is counted and open; one that was not is an
/// error and nothing else.
pub proof fn accepted_connections_are_counted(metric: Metric)
    ensures
        counted_by(accept_updates(true), metric) == if metric == Metric::ConnectionsTotal {
            1int
        } else {
            0
        },
        raised(accept_updates(true), metric) == if metric == Metric::ActiveConnections {
            1int
        } else {
            0
        },
        counted_by(accept_updates(false), metric) == if metric == Metric::ErrorsTotal {
            1int
        } else {
            0
        },
        raised(accept_updates(false), metric) == 0,
{
    connections_move_their_metrics(metric);
    reveal_with_fuel(counted_by, 2);
    reveal_with_fuel(raised, 2);
    assert(accept_updates(false).drop_last() =~= Seq::empty());
}

/// A connection out of the pool is a hit, another a miss.
pub proof fn pool_tells_hits_and_misses(metric: Metric)
    ensures
        counted_by(pool_updates(true), metric) == if metric == Metric::PoolHits {
            1int
        } else {
            0
        },
        counted_by(pool_updates(false), metric) == if metric == Metric::PoolMisses {
            1int
        } else {
            0
        },
        raised(pool_updates(true), metric) == 0 && raised(pool_updates(false), metric) == 0,
{
    reveal_with_fuel(counted_by, 2);
    reveal_with_fuel(raised, 2);
    assert(pool_updates(true).drop_last() =~= Seq::empty());
    assert(pool_updates(false).drop_last() =~= Seq::empty());
}

/// A connection that is over is no longer open. It counts as a success, or as a
/// failure and an error.
pub proof fn ended_connections_are_told(success: bool, metric: Metric)
    ensures
        raised(over_updates(success), metric) == if metric == Metric::ActiveConnections {
            -1int
        } else {
            0
        },
        success ==> counted_by(over_updates(success), metric) == if metric
            == Metric::ConnectionsSuccessful {
            1int
        } else {
            0
        },
        !success ==> counted_by(over_updates(success), metric) == if metric
            == Metric::ConnectionsFailed || metric == Metric::ErrorsTotal {
            1int
        } else {
            0
        },
{
    reveal_with_fuel(counted_by, 3);
    reveal_with_fuel(raised, 3);
    connections_move_their_metrics(metric);
    let good: Seq<MetricUpdate> = seq![one_more(Metric::ConnectionsSuccessful)];
    let bad: Seq<MetricUpdate> = seq![
        one_more(Metric::ConnectionsFailed),
        one_more(Metric::ErrorsTotal),
    ];
    assert(good.drop_last() =~= Seq::empty());
    assert(bad.drop_last() =~= seq![one_more(Metric::ConnectionsFailed)]);
    assert(bad.drop_last().drop_last() =~= Seq::empty());
    updates_add_up(closed(), good, metric);
    updates_add_up(closed(), bad, metric);
}

} // verus!
