//! The metrics of the forwarder of listed remotes.
//!
//! Each event gives the changes to the metrics that it calls for.
use crate::float_bits::Double;
use crate::time::Duration;
use vstd::prelude::*;

verus! {

/// A metric.
#[derive(Clone, Copy, Debug, PartialEq, Eq, Structural)]
pub enum Metric {
    ConnectionsTotal,
    ConnectionsSuccessful,
    ConnectionsFailed,
    ActiveConnections,
    PoolConnections,
    PoolHits,
    PoolMisses,
    PoolConnectionsCreated,
    PoolConnectionsFailed,
    ActiveIps,
    IpScore,
    IpProbesTotal,
    IpProbesSuccessful,
    IpProbesFailed,
    ConnectionDuration,
    ProbeDuration,
    TransferBytes,
    Uptime,
    ErrorsTotal,
}

/// What kind of number a metric is.
#[derive(Clone, Copy, Debug, PartialEq, Eq, Structural)]
pub enum MetricKind {
    Counter,
    Gauge,
    Histogram,
}

/// A change to a metric.
#[derive(Clone, Copy, Debug, PartialEq, Eq, Structural)]
pub enum MetricUpdate {
    /// Count some more.
    Count { metric: Metric, by: u64 },
    /// Raise a gauge by one.
    Raise { metric: Metric },
    /// Lower a gauge by one.
    Lower { metric: Metric },
    /// Set a gauge.
    Assign { metric: Metric, to: Double },
    /// Note a span of time.
    Time { metric: Metric, span: Duration },
    /// Note an amount.
    Amount { metric: Metric, value: u64 },
}

/// The name of a metric.
pub open spec fn name_of(metric: Metric) -> Seq<char> {
    match metric {
        Metric::ConnectionsTotal => "tcp_forwarder_connections_total"@,
        Metric::ConnectionsSuccessful => "tcp_forwarder_connections_successful"@,
        Metric::ConnectionsFailed => "tcp_forwarder_connections_failed"@,
        Metric::ActiveConnections => "tcp_forwarder_active_connections"@,
        Metric::PoolConnections => "tcp_forwarder_pool_connections"@,
        Metric::PoolHits => "tcp_forwarder_pool_hits"@,
        Metric::PoolMisses => "tcp_forwarder_pool_misses"@,
        Metric::PoolConnectionsCreated => "tcp_forwarder_pool_connections_created"@,
        Metric::PoolConnectionsFailed => "tcp_forwarder_pool_connections_failed"@,
        Metric::ActiveIps => "tcp_forwarder_active_ips"@,
        Metric::IpScore => "tcp_forwarder_ip_score"@,
        Metric::IpProbesTotal => "tcp_forwarder_ip_probes_total"@,
        Metric::IpProbesSuccessful => "tcp_forwarder_ip_probes_successful"@,
        Metric::IpProbesFailed => "tcp_forwarder_ip_probes_failed"@,
        Metric::ConnectionDuration => "tcp_forwarder_connection_duration_seconds"@,
        Metric::ProbeDuration => "tcp_forwarder_probe_duration_seconds"@,
        Metric::TransferBytes => "tcp_forwarder_transfer_bytes"@,
        Metric::Uptime => "tcp_forwarder_uptime_seconds"@,
        Metric::ErrorsTotal => "tcp_forwarder_errors_total"@,
    }
}

/// What kind of number a metric is.
pub open spec fn kind_of(metric: Metric) -> MetricKind {
    match metric {
        Metric::ActiveConnections | Metric::PoolConnections | Metric::ActiveIps | Metric::IpScore
        | Metric::Uptime => MetricKind::Gauge,
        Metric::ConnectionDuration | Metric::ProbeDuration
        | Metric::TransferBytes => MetricKind::Histogram,
        _ => MetricKind::Counter,
    }
}

impl Metric {
    /// The name under which the metric is served.
    pub fn name(self) -> (s: &'static str)
        ensures
            s@ == name_of(self),
    {
        match self {
            Metric::ConnectionsTotal => "tcp_forwarder_connections_total",
            Metric::ConnectionsSuccessful => "tcp_forwarder_connections_successful",
            Metric::ConnectionsFailed => "tcp_forwarder_connections_failed",
            Metric::ActiveConnections => "tcp_forwarder_active_connections",
            Metric::PoolConnections => "tcp_forwarder_pool_connections",
            Metric::PoolHits => "tcp_forwarder_pool_hits",
            Metric::PoolMisses => "tcp_forwarder_pool_misses",
            Metric::PoolConnectionsCreated => "tcp_forwarder_pool_connections_created",
            Metric::PoolConnectionsFailed => "tcp_forwarder_pool_connections_failed",
            Metric::ActiveIps => "tcp_forwarder_active_ips",
            Metric::IpScore => "tcp_forwarder_ip_score",
            Metric::IpProbesTotal => "tcp_forwarder_ip_probes_total",
            Metric::IpProbesSuccessful => "tcp_forwarder_ip_probes_successful",
            Metric::IpProbesFailed => "tcp_forwarder_ip_probes_failed",
            Metric::ConnectionDuration => "tcp_forwarder_connection_duration_seconds",
            Metric::ProbeDuration => "tcp_forwarder_probe_duration_seconds",
            Metric::TransferBytes => "tcp_forwarder_transfer_bytes",
            Metric::Uptime => "tcp_forwarder_uptime_seconds",
            Metric::ErrorsTotal => "tcp_forwarder_errors_total",
        }
    }

    /// What kind of number the metric is.
    pub fn kind(self) -> (k: MetricKind)
        ensures
            k == kind_of(self),
    {
        match self {
            Metric::ActiveConnections | Metric::PoolConnections | Metric::ActiveIps
            | Metric::IpScore | Metric::Uptime => MetricKind::Gauge,
            Metric::ConnectionDuration | Metric::ProbeDuration
            | Metric::TransferBytes => MetricKind::Histogram,
            _ => MetricKind::Counter,
        }
    }
}

/// All metrics, in the order in which they are registered.
pub open spec fn all_metrics() -> Seq<Metric> {
    seq![
        Metric::ConnectionsTotal,
        Metric::ConnectionsSuccessful,
        Metric::ConnectionsFailed,
        Metric::ActiveConnections,
        Metric::PoolConnections,
        Metric::PoolHits,
        Metric::PoolMisses,
        Metric::PoolConnectionsCreated,
        Metric::PoolConnectionsFailed,
        Metric::ActiveIps,
        Metric::IpScore,
        Metric::IpProbesTotal,
        Metric::IpProbesSuccessful,
        Metric::IpProbesFailed,
        Metric::ConnectionDuration,
        Metric::ProbeDuration,
        Metric::TransferBytes,
        Metric::Uptime,
        Metric::ErrorsTotal,
    ]
}

/// Lists the metrics to register.
pub fn register_metrics() -> (metrics: Vec<Metric>)
    ensures
        metrics@ == all_metrics(),
{
    let metrics: Vec<Metric> = vec![
        Metric::ConnectionsTotal,
        Metric::ConnectionsSuccessful,
        Metric::ConnectionsFailed,
        Metric::ActiveConnections,
        Metric::PoolConnections,
        Metric::PoolHits,
        Metric::PoolMisses,
        Metric::PoolConnectionsCreated,
        Metric::PoolConnectionsFailed,
        Metric::ActiveIps,
        Metric::IpScore,
        Metric::IpProbesTotal,
        Metric::IpProbesSuccessful,
        Metric::IpProbesFailed,
        Metric::ConnectionDuration,
        Metric::ProbeDuration,
        Metric::TransferBytes,
        Metric::Uptime,
        Metric::ErrorsTotal,
    ];
    assert(metrics@ =~= all_metrics());
    metrics
}

/// The change that counts one more.
pub open spec fn one_more(metric: Metric) -> MetricUpdate {
    MetricUpdate::Count { metric, by: 1 }
}

fn count_one(metric: Metric) -> (r: Vec<MetricUpdate>)
    ensures
        r@ == seq![one_more(metric)],
{
    let r: Vec<MetricUpdate> = vec![MetricUpdate::Count { metric, by: 1 }];
    assert(r@ =~= seq![one_more(metric)]);
    r
}

/// The changes when a connection comes in.
pub open spec fn opened() -> Seq<MetricUpdate> {
    seq![
        one_more(Metric::ConnectionsTotal),
        MetricUpdate::Raise { metric: Metric::ActiveConnections },
    ]
}

/// The changes when a connection is closed.
pub open spec fn closed() -> Seq<MetricUpdate> {
    seq![MetricUpdate::Lower { metric: Metric::ActiveConnections }]
}

/// A connection came in.
pub fn record_new_connection() -> (r: Vec<MetricUpdate>)
    ensures
        r@ == opened(),
{
    let r: Vec<MetricUpdate> = vec![
        MetricUpdate::Count { metric: Metric::ConnectionsTotal, by: 1 },
        MetricUpdate::Raise { metric: Metric::ActiveConnections },
    ];
    assert(r@ =~= opened());
    r
}

/// A connection was closed.
pub fn record_connection_closed() -> (r: Vec<MetricUpdate>)
    ensures
        r@ == closed(),
{
    let r: Vec<MetricUpdate> = vec![MetricUpdate::Lower { metric: Metric::ActiveConnections }];
    assert(r@ =~= closed());
    r
}

/// A connection ended well.
pub fn record_connection_success() -> (r: Vec<MetricUpdate>)
    ensures
        r@ == seq![one_more(Metric::ConnectionsSuccessful)],
{
    count_one(Metric::ConnectionsSuccessful)
}

/// A connection failed, which is an error too.
pub fn record_connection_failed() -> (r: Vec<MetricUpdate>)
    ensures
        r@ == seq![one_more(Metric::ConnectionsFailed), one_more(Metric::ErrorsTotal)],
{
    let r: Vec<MetricUpdate> = vec![
        MetricUpdate::Count { metric: Metric::ConnectionsFailed, by: 1 },
        MetricUpdate::Count { metric: Metric::ErrorsTotal, by: 1 },
    ];
    assert(r@ =~= seq![one_more(Metric::ConnectionsFailed), one_more(Metric::ErrorsTotal)]);
    r
}

/// Making a connection took some time.
pub fn record_connection_duration(duration: Duration) -> (r: Vec<MetricUpdate>)
    ensures
        r@ == seq![(MetricUpdate::Time { metric: Metric::ConnectionDuration, span: duration })],
{
    let r: Vec<MetricUpdate> = vec![
        MetricUpdate::Time { metric: Metric::ConnectionDuration, span: duration },
    ];
    assert(r@ =~= seq![
        (MetricUpdate::Time { metric: Metric::ConnectionDuration, span: duration }),
    ]);
    r
}

/// A connection came from the pool of a remote.
pub fn record_pool_hit(_ip: &str) -> (r: Vec<MetricUpdate>)
    ensures
        r@ == seq![one_more(Metric::PoolHits)],
{
    count_one(Metric::PoolHits)
}

/// The pool of a remote had no connection.
pub fn record_pool_miss(_ip: &str) -> (r: Vec<MetricUpdate>)
    ensures
        r@ == seq![one_more(Metric::PoolMisses)],
{
    count_one(Metric::PoolMisses)
}

/// The size of a pool. It is not kept by remote, so nothing changes.
pub fn record_pool_size(_ip: &str, _size: Double) -> (r: Vec<MetricUpdate>)
    ensures
        r@.len() == 0,
{
    Vec::new()
}

/// A connection was put into the pool of a remote.
pub fn record_pool_connection_created(_ip: &str) -> (r: Vec<MetricUpdate>)
    ensures
        r@ == seq![one_more(Metric::PoolConnectionsCreated)],
{
    count_one(Metric::PoolConnectionsCreated)
}

/// A connection for the pool of a remote could not be made.
pub fn record_pool_connection_failed(_ip: &str) -> (r: Vec<MetricUpdate>)
    ensures
        r@ == seq![one_more(Metric::PoolConnectionsFailed)],
{
    count_one(Metric::PoolConnectionsFailed)
}

/// The number of remotes in use.
pub fn record_active_ips(count: Double) -> (r: Vec<MetricUpdate>)
    ensures
        r@ == seq![(MetricUpdate::Assign { metric: Metric::ActiveIps, to: count })],
{
    let r: Vec<MetricUpdate> = vec![MetricUpdate::Assign { metric: Metric::ActiveIps, to: count }];
    assert(r@ =~= seq![(MetricUpdate::Assign { metric: Metric::ActiveIps, to: count })]);
    r
}

/// The score of a remote. It is not kept by remote, so nothing changes.
pub fn record_ip_score(_ip: &str, _score: Double) -> (r: Vec<MetricUpdate>)
    ensures
        r@.len() == 0,
{
    Vec::new()
}

/// A remote is probed.
pub fn record_ip_probe(_ip: &str) -> (r: Vec<MetricUpdate>)
    ensures
        r@ == seq![one_more(Metric::IpProbesTotal)],
{
    count_one(Metric::IpProbesTotal)
}

/// A probe reached its remote.
pub fn record_ip_probe_success(_ip: &str) -> (r: Vec<MetricUpdate>)
    ensures
        r@ == seq![one_more(Metric::IpProbesSuccessful)],
{
    count_one(Metric::IpProbesSuccessful)
}

/// A probe did not reach its remote.
pub fn record_ip_probe_failed(_ip: &str) -> (r: Vec<MetricUpdate>)
    ensures
        r@ == seq![one_more(Metric::IpProbesFailed)],
{
    count_one(Metric::IpProbesFailed)
}

/// A probe took some time.
pub fn record_probe_duration(duration: Duration) -> (r: Vec<MetricUpdate>)
    ensures
        r@ == seq![(MetricUpdate::Time { metric: Metric::ProbeDuration, span: duration })],
{
    let r: Vec<MetricUpdate> = vec![
        MetricUpdate::Time { metric: Metric::ProbeDuration, span: duration },
    ];
    assert(r@ =~= seq![(MetricUpdate::Time { metric: Metric::ProbeDuration, span: duration })]);
    r
}

/// A connection carried some bytes.
pub fn record_transfer_bytes(bytes: u64) -> (r: Vec<MetricUpdate>)
    ensures
        r@ == seq![(MetricUpdate::Amount { metric: Metric::TransferBytes, value: bytes })],
{
    let r: Vec<MetricUpdate> = vec![
        MetricUpdate::Amount { metric: Metric::TransferBytes, value: bytes },
    ];
    assert(r@ =~= seq![(MetricUpdate::Amount { metric: Metric::TransferBytes, value: bytes })]);
    r
}

/// The forwarder has run for some seconds.
pub fn record_uptime(uptime_seconds: Double) -> (r: Vec<MetricUpdate>)
    ensures
        r@ == seq![(MetricUpdate::Assign { metric: Metric::Uptime, to: uptime_seconds })],
{
    let r: Vec<MetricUpdate> = vec![
        MetricUpdate::Assign { metric: Metric::Uptime, to: uptime_seconds },
    ];
    assert(r@ =~= seq![(MetricUpdate::Assign { metric: Metric::Uptime, to: uptime_seconds })]);
    r
}

/// Something went wrong.
pub fn record_error() -> (r: Vec<MetricUpdate>)
    ensures
        r@ == seq![one_more(Metric::ErrorsTotal)],
{
    count_one(Metric::ErrorsTotal)
}

/// How far some changes raise a gauge.
pub open spec fn raised(updates: Seq<MetricUpdate>, gauge: Metric) -> int
    decreases updates.len(),
{
    if updates.len() == 0 {
        0
    } else {
        raised(updates.drop_last(), gauge) + match updates.last() {
            MetricUpdate::Raise { metric } => if metric == gauge {
                1int
            } else {
                0
            },
            MetricUpdate::Lower { metric } => if metric == gauge {
                -1int
            } else {
                0
            },
            _ => 0,
        }
    }
}

/// A connection that comes in and is closed leaves the gauge of open
/// connections where it was.
pub proof fn connection_leaves_gauge(before: Seq<MetricUpdate>)
    ensures
        raised(before + opened() + closed(), Metric::ActiveConnections) == raised(
            before,
            Metric::ActiveConnections,
        ),
{
    reveal_with_fuel(raised, 4);
    let first = before.push(one_more(Metric::ConnectionsTotal));
    let second = first.push(MetricUpdate::Raise { metric: Metric::ActiveConnections });
    let third = second.push(MetricUpdate::Lower { metric: Metric::ActiveConnections });
    assert(before + opened() + closed() =~= third);
    assert(third.drop_last() =~= second);
    assert(second.drop_last() =~= first);
    assert(first.drop_last() =~= before);
}

/// How much some updates count of a metric.
pub open spec fn counted_by(updates: Seq<MetricUpdate>, counter: Metric) -> int
    decreases updates.len(),
{
    if updates.len() == 0 {
        0
    } else {
        counted_by(updates.drop_last(), counter) + match updates.last() {
            MetricUpdate::Count { metric, by } => if metric == counter {
                by as int
            } else {
                0
            },
            _ => 0,
        }
    }
}

/// An opened connection is one more in all and one more that is open; a closed
/// one is one fewer that is open. Neither touches another metric.
pub proof fn connections_move_their_metrics(metric: Metric)
    ensures
        counted_by(opened(), metric) == if metric == Metric::ConnectionsTotal {
            1int
        } else {
            0
        },
        raised(opened(), metric) == if metric == Metric::ActiveConnections {
            1int
        } else {
            0
        },
        counted_by(closed(), metric) == 0,
        raised(closed(), metric) == if metric == Metric::ActiveConnections {
            -1int
        } else {
            0
        },
        counted_by(seq![one_more(metric)], metric) == 1,
{
    reveal_with_fuel(counted_by, 3);
    reveal_with_fuel(raised, 3);
    assert(opened().drop_last() =~= seq![one_more(Metric::ConnectionsTotal)]);
    assert(opened().drop_last().drop_last() =~= Seq::empty());
    assert(closed().drop_last() =~= Seq::empty());
    assert(seq![one_more(metric)].drop_last() =~= Seq::empty());
}

/// Some updates after others count and raise what each of the two do.
pub proof fn updates_add_up(a: Seq<MetricUpdate>, b: Seq<MetricUpdate>, metric: Metric)
    ensures
        counted_by(a + b, metric) == counted_by(a, metric) + counted_by(b, metric),
        raised(a + b, metric) == raised(a, metric) + raised(b, metric),
    decreases b.len(),
{
    if b.len() == 0 {
        assert(a + b =~= a);
    } else {
        updates_add_up(a, b.drop_last(), metric);
        assert((a + b).drop_last() =~= a + b.drop_last());
        assert((a + b).last() == b.last());
    }
}

} // verus!
