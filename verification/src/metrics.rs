//! Counters of the forwarder.
use vstd::prelude::*;

verus! {

/// What the forwarder has done. The counters start over after the largest
/// number.
#[derive(Clone, Copy, Debug, PartialEq, Eq, Structural)]
pub struct ForwardMetrics {
    total_connections: u64,
    active_connections: u64,
    race_successes: u64,
    race_failures: u64,
    pool_hits: u64,
    bytes_tx: u64,
    bytes_rx: u64,
}

/// The counters at one moment.
#[derive(Clone, Copy, Debug, PartialEq, Eq, Structural)]
pub struct ForwardMetricsSnapshot {
    pub total_connections: u64,
    pub active_connections: u64,
    pub race_successes: u64,
    pub race_failures: u64,
    pub pool_hits: u64,
    pub bytes_tx: u64,
    pub bytes_rx: u64,
}

/// A counter after `n` more.
pub open spec fn advanced(counter: u64, n: int) -> u64 {
    ((counter + n) % 0x1_0000_0000_0000_0000) as u64
}

impl View for ForwardMetrics {
    type V = ForwardMetricsSnapshot;

    closed spec fn view(&self) -> ForwardMetricsSnapshot {
        ForwardMetricsSnapshot {
            total_connections: self.total_connections,
            active_connections: self.active_connections,
            race_successes: self.race_successes,
            race_failures: self.race_failures,
            pool_hits: self.pool_hits,
            bytes_tx: self.bytes_tx,
            bytes_rx: self.bytes_rx,
        }
    }
}

impl ForwardMetrics {
    /// All counters at zero.
    pub fn new() -> (m: ForwardMetrics)
        ensures
            m@ == (ForwardMetricsSnapshot {
                total_connections: 0,
                active_connections: 0,
                race_successes: 0,
                race_failures: 0,
                pool_hits: 0,
                bytes_tx: 0,
                bytes_rx: 0,
            }),
    {
        ForwardMetrics {
            total_connections: 0,
            active_connections: 0,
            race_successes: 0,
            race_failures: 0,
            pool_hits: 0,
            bytes_tx: 0,
            bytes_rx: 0,
        }
    }

    /// Counts a connection that came in.
    pub fn inc_total_connections(&mut self)
        ensures
            final(self)@ == (ForwardMetricsSnapshot {
                total_connections: advanced(old(self)@.total_connections, 1),
                ..old(self)@
            }),
    {
        self.total_connections = self.total_connections.wrapping_add(1);
    }

    /// Counts a connection as open.
    pub fn inc_active(&mut self)
        ensures
            final(self)@ == (ForwardMetricsSnapshot {
                active_connections: advanced(old(self)@.active_connections, 1),
                ..old(self)@
            }),
    {
        self.active_connections = self.active_connections.wrapping_add(1);
    }

    /// Counts a connection as closed.
    pub fn dec_active(&mut self)
        ensures
            final(self)@ == (ForwardMetricsSnapshot {
                active_connections: advanced(old(self)@.active_connections, -1),
                ..old(self)@
            }),
    {
        self.active_connections = self.active_connections.wrapping_sub(1);
    }

    /// Counts a race that an address won.
    pub fn inc_race_success(&mut self)
        ensures
            final(self)@ == (ForwardMetricsSnapshot {
                race_successes: advanced(old(self)@.race_successes, 1),
                ..old(self)@
            }),
    {
        self.race_successes = self.race_successes.wrapping_add(1);
    }

    /// Counts a race that no address won.
    pub fn inc_race_failure(&mut self)
        ensures
            final(self)@ == (ForwardMetricsSnapshot {
                race_failures: advanced(old(self)@.race_failures, 1),
                ..old(self)@
            }),
    {
        self.race_failures = self.race_failures.wrapping_add(1);
    }

    /// Counts a connection served from the pool.
    pub fn inc_pool_hit(&mut self)
        ensures
            final(self)@ == (ForwardMetricsSnapshot {
                pool_hits: advanced(old(self)@.pool_hits, 1),
                ..old(self)@
            }),
    {
        self.pool_hits = self.pool_hits.wrapping_add(1);
    }

    /// Counts the bytes of a connection.
    pub fn add_bytes(&mut self, tx: u64, rx: u64)
        ensures
            final(self)@ == (ForwardMetricsSnapshot {
                bytes_tx: advanced(old(self)@.bytes_tx, tx as int),
                bytes_rx: advanced(old(self)@.bytes_rx, rx as int),
                ..old(self)@
            }),
    {
        self.bytes_tx = self.bytes_tx.wrapping_add(tx);
        self.bytes_rx = self.bytes_rx.wrapping_add(rx);
    }

    /// Reads the counters.
    pub fn snapshot(&self) -> (s: ForwardMetricsSnapshot)
        ensures
            s == self@,
    {
        ForwardMetricsSnapshot {
            total_connections: self.total_connections,
            active_connections: self.active_connections,
            race_successes: self.race_successes,
            race_failures: self.race_failures,
            pool_hits: self.pool_hits,
            bytes_tx: self.bytes_tx,
            bytes_rx: self.bytes_rx,
        }
    }
}

impl Default for ForwardMetrics {
    fn default() -> (m: Self)
        ensures
            m@ == (ForwardMetricsSnapshot {
                total_connections: 0,
                active_connections: 0,
                race_successes: 0,
                race_failures: 0,
                pool_hits: 0,
                bytes_tx: 0,
                bytes_rx: 0,
            }),
    {
        ForwardMetrics::new()
    }
}

/// A connection that is counted as open and then as closed leaves the number
/// of open connections as it was.
pub proof fn open_then_closed(active: u64)
    ensures
        advanced(advanced(active, 1), -1) == active,
{
}

/// A counter grows by as much as it is told, as long as it has room.
pub proof fn counters_add(counter: u64, n: int)
    requires
        0 <= counter + n <= u64::MAX,
    ensures
        advanced(counter, n) == counter + n,
{
}

} // verus!
