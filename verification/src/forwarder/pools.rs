//! Pools of connections to remotes.
use crate::forwarder::config::{DynamicStrategyConfig, PoolStrategyConfig};
use crate::forwarder::loadbalancer::names_ip;
use crate::net::IpAddr;
use crate::text::same_str;
use crate::time::{elapsed, elapsed_spec, Duration, NANOS_PER_SEC};
use std::collections::VecDeque;
use vstd::prelude::*;

verus! {

/// How many peaks are remembered.
pub const HISTORY_LIMIT: usize = 100;

/// Seconds between two checks of a pool.
pub const HEALTH_CHECK_INTERVAL_SECS: u64 = 30;

/// Milliseconds between two rounds of filling a pool that grows and shrinks.
pub const DYNAMIC_FILL_INTERVAL_MS: u64 = 500;

/// Seconds between two rounds of filling a pool of one size.
pub const STATIC_FILL_INTERVAL_SECS: u64 = 5;

/// The most connections that a pool can be made for.
pub const MAX_CAPACITY: usize = usize::MAX / 8;

/// What is going on in a pool. The counters start over after the largest
/// number, in either direction.
#[derive(Debug)]
pub struct PoolStats {
    /// Connections in use.
    active_connections: usize,
    /// Connections in the pool.
    available_connections: usize,
    /// Connections in use and in the pool.
    total_connections: usize,
    /// The connections in use each time one was taken, oldest first.
    peak_concurrency_history: VecDeque<usize>,
    /// When the pool last grew or shrank, in nanoseconds on a clock that never
    /// goes back.
    last_scaling_time: u128,
    /// Connections asked for.
    connection_requests: u64,
}

/// What is going on in a pool, with the history as a sequence.
pub struct StatsView {
    pub active_connections: usize,
    pub available_connections: usize,
    pub total_connections: usize,
    pub peak_concurrency_history: Seq<usize>,
    pub last_scaling_time: u128,
    pub connection_requests: u64,
}

impl View for PoolStats {
    type V = StatsView;

    closed spec fn view(&self) -> StatsView {
        StatsView {
            active_connections: self.active_connections,
            available_connections: self.available_connections,
            total_connections: self.total_connections,
            peak_concurrency_history: self.peak_concurrency_history@,
            last_scaling_time: self.last_scaling_time,
            connection_requests: self.connection_requests,
        }
    }
}

/// One more, or zero after the largest number.
pub open spec fn up(n: usize) -> usize {
    if n < usize::MAX {
        (n + 1) as usize
    } else {
        0
    }
}

/// One less, or the largest number after zero.
pub open spec fn down(n: usize) -> usize {
    if n > 0 {
        (n - 1) as usize
    } else {
        usize::MAX
    }
}

/// A history after one more entry, without the oldest where it is full.
pub open spec fn remembered(history: Seq<usize>, entry: usize) -> Seq<usize> {
    if history.len() >= HISTORY_LIMIT {
        history.drop_first().push(entry)
    } else {
        history.push(entry)
    }
}

/// The largest entry of a history; zero where it is empty.
pub open spec fn peak(history: Seq<usize>) -> usize
    decreases history.len(),
{
    if history.len() == 0 {
        0
    } else {
        let earlier = peak(history.drop_last());
        if history.last() >= earlier {
            history.last()
        } else {
            earlier
        }
    }
}

/// The peak is one of the entries, and none is larger.
pub proof fn peak_is_largest(history: Seq<usize>)
    ensures
        history.len() > 0 ==> history.contains(peak(history)),
        forall|i: int| 0 <= i < history.len() ==> #[trigger] history[i] <= peak(history),
    decreases history.len(),
{
    if history.len() > 0 {
        let init = history.drop_last();
        peak_is_largest(init);
        if history.last() >= peak(init) {
            assert(history[history.len() - 1] == peak(history));
        } else {
            assert(init.len() > 0);
            let w = choose|w: int| 0 <= w < init.len() && init[w] == peak(init);
            assert(history[w] == peak(history));
        }
        assert forall|i: int| 0 <= i < history.len() implies #[trigger] history[i] <= peak(
            history,
        ) by {
            if i < init.len() {
                assert(init[i] <= peak(init));
            }
        }
    }
}

/// A pool in which nothing has happened.
pub open spec fn new_stats(now: u128) -> StatsView {
    StatsView {
        active_connections: 0,
        available_connections: 0,
        total_connections: 0,
        peak_concurrency_history: Seq::empty(),
        last_scaling_time: now,
        connection_requests: 0,
    }
}

/// What is going on in a pool after a connection was made and put into it.
pub open spec fn created_stats(stats: StatsView) -> StatsView {
    StatsView {
        available_connections: up(stats.available_connections),
        total_connections: up(stats.total_connections),
        ..stats
    }
}

/// What is going on in a pool after a connection in use went back into it, or
/// was closed.
pub open spec fn released_stats(stats: StatsView, returned_to_pool: bool) -> StatsView {
    StatsView {
        active_connections: down(stats.active_connections),
        available_connections: if returned_to_pool {
            up(stats.available_connections)
        } else {
            stats.available_connections
        },
        total_connections: if returned_to_pool {
            stats.total_connections
        } else {
            down(stats.total_connections)
        },
        ..stats
    }
}

/// What is going on in a pool after a connection in it was closed.
pub open spec fn one_closed(stats: StatsView) -> StatsView {
    StatsView {
        available_connections: if stats.available_connections > 0 {
            down(stats.available_connections)
        } else {
            0
        },
        total_connections: down(stats.total_connections),
        ..stats
    }
}

/// What is going on in a pool after `n` connections in it were closed.
pub open spec fn closed_stats(stats: StatsView, n: nat) -> StatsView
    decreases n,
{
    if n == 0 {
        stats
    } else {
        one_closed(closed_stats(stats, (n - 1) as nat))
    }
}

/// What is going on in a pool after a connection was taken out of it.
pub open spec fn acquired_stats(stats: StatsView) -> StatsView {
    StatsView {
        active_connections: up(stats.active_connections),
        available_connections: down(stats.available_connections),
        peak_concurrency_history: remembered(
            stats.peak_concurrency_history,
            up(stats.active_connections),
        ),
        connection_requests: ((stats.connection_requests + 1) % 0x1_0000_0000_0000_0000) as u64,
        ..stats
    }
}

impl PoolStats {
    /// The history is not longer than what is remembered.
    pub open spec fn wf(self) -> bool {
        self@.peak_concurrency_history.len() <= HISTORY_LIMIT
    }

    /// A pool in which nothing has happened.
    pub fn new(now: u128) -> (s: PoolStats)
        ensures
            s.wf(),
            s@ == new_stats(now),
    {
        let s: PoolStats = PoolStats {
            active_connections: 0,
            available_connections: 0,
            total_connections: 0,
            peak_concurrency_history: VecDeque::new(),
            last_scaling_time: now,
            connection_requests: 0,
        };
        assert(s@.peak_concurrency_history =~= Seq::empty());
        s
    }

    /// The connections in use.
    pub fn active_connections(&self) -> (n: usize)
        ensures
            n == self@.active_connections,
    {
        self.active_connections
    }

    /// The connections in the pool.
    pub fn available_connections(&self) -> (n: usize)
        ensures
            n == self@.available_connections,
    {
        self.available_connections
    }

    /// The connections in use and in the pool.
    pub fn total_connections(&self) -> (n: usize)
        ensures
            n == self@.total_connections,
    {
        self.total_connections
    }

    /// The connections asked for.
    pub fn connection_requests(&self) -> (n: u64)
        ensures
            n == self@.connection_requests,
    {
        self.connection_requests
    }

    /// When the pool last grew or shrank.
    pub fn last_scaling_time(&self) -> (t: u128)
        ensures
            t == self@.last_scaling_time,
    {
        self.last_scaling_time
    }

    /// A connection was taken out of the pool.
    pub fn record_connection_acquired(&mut self)
        requires
            old(self).wf(),
        ensures
            final(self).wf(),
            final(self)@ == acquired_stats(old(self)@),
    {
        self.active_connections = self.active_connections.wrapping_add(1);
        self.available_connections = self.available_connections.wrapping_sub(1);
        self.connection_requests = self.connection_requests.wrapping_add(1);
        if self.peak_concurrency_history.len() >= HISTORY_LIMIT {
            let _oldest: Option<usize> = self.peak_concurrency_history.pop_front();
        }
        self.peak_concurrency_history.push_back(self.active_connections);
        assert(self@.peak_concurrency_history =~= remembered(
            old(self)@.peak_concurrency_history,
            up(old(self)@.active_connections),
        ));
    }

    /// A connection is no longer in use: it went back into the pool, or it was
    /// closed.
    pub fn record_connection_released(&mut self, returned_to_pool: bool)
        ensures
            final(self)@ == released_stats(old(self)@, returned_to_pool),
    {
        self.active_connections = self.active_connections.wrapping_sub(1);
        if returned_to_pool {
            self.available_connections = self.available_connections.wrapping_add(1);
        } else {
            self.total_connections = self.total_connections.wrapping_sub(1);
        }
    }

    /// A connection was made and put into the pool.
    pub fn record_connection_created(&mut self)
        ensures
            final(self)@ == created_stats(old(self)@),
    {
        self.available_connections = self.available_connections.wrapping_add(1);
        self.total_connections = self.total_connections.wrapping_add(1);
    }

    /// A connection in the pool was closed.
    pub fn record_connection_closed(&mut self)
        ensures
            final(self)@ == one_closed(old(self)@),
    {
        if self.available_connections > 0 {
            self.available_connections = self.available_connections - 1;
        }
        self.total_connections = self.total_connections.wrapping_sub(1);
    }

    /// The pool grew or shrank.
    pub fn record_scaling(&mut self, now: u128)
        ensures
            final(self)@ == (StatsView { last_scaling_time: now, ..old(self)@ }),
    {
        self.last_scaling_time = now;
    }

    /// The most connections in use that are remembered.
    pub fn get_recent_peak_concurrency(&self) -> (n: usize)
        ensures
            n == peak(self@.peak_concurrency_history),
    {
        let ghost history: Seq<usize> = self.peak_concurrency_history@;
        let mut n: usize = 0;
        let mut i: usize = 0;
        while i < self.peak_concurrency_history.len()
            invariant
                i <= history.len(),
                history == self.peak_concurrency_history@,
                n == peak(history.take(i as int)),
            decreases history.len() - i,
        {
            assert(history.take(i + 1).drop_last() =~= history.take(i as int));
            assert(history.take(i + 1).last() == history[i as int]);
            if self.peak_concurrency_history[i] >= n {
                n = self.peak_concurrency_history[i];
            }
            i = i + 1;
        }
        assert(history.take(i as int) =~= history);
        n
    }

    /// The size that a pool should have: the peak, and some to spare.
    pub fn calculate_target_size(&self, buffer_size: usize) -> (n: usize)
        requires
            peak(self@.peak_concurrency_history) + buffer_size <= usize::MAX,
        ensures
            n == peak(self@.peak_concurrency_history) + buffer_size,
    {
        self.get_recent_peak_concurrency() + buffer_size
    }
}

/// As long as no counter starts over, the connections of a pool are those in
/// use and those in the pool.
pub open spec fn adds_up(stats: StatsView) -> bool {
    stats.total_connections == stats.active_connections + stats.available_connections
}

/// Making, taking, giving back and closing connections keeps the counts adding
/// up, as long as only connections that are there are taken, given back or
/// closed.
pub proof fn counts_keep_adding_up(stats: StatsView)
    requires
        adds_up(stats),
    ensures
        stats.total_connections < usize::MAX ==> adds_up(created_stats(stats)),
        stats.available_connections > 0 ==> adds_up(acquired_stats(stats)),
        stats.active_connections > 0 ==> adds_up(released_stats(stats, true)),
        stats.active_connections > 0 ==> adds_up(released_stats(stats, false)),
        stats.available_connections > 0 ==> adds_up(one_closed(stats)),
{
}

/// A connection that is kept for later use.
#[derive(Debug)]
pub struct PooledConnection<S> {
    pub stream: S,
    /// When it was made, in nanoseconds on a clock that never goes back.
    pub created_at: u128,
    /// When it was last used.
    pub last_active: u128,
}

impl<S> PooledConnection<S> {
    /// A connection that was just made.
    pub fn new(stream: S, now: u128) -> (c: PooledConnection<S>)
        ensures
            c.stream == stream,
            c.created_at == now,
            c.last_active == now,
    {
        PooledConnection { stream, created_at: now, last_active: now }
    }

    /// Notes that the connection is in use.
    pub fn touch(&mut self, now: u128)
        ensures
            *final(self) == (PooledConnection { last_active: now, ..*old(self) }),
    {
        self.last_active = now;
    }

    /// Whether the connection was not used for too long.
    pub fn is_expired(&self, max_idle_time: Duration, now: u128) -> (b: bool)
        ensures
            b == (elapsed_spec(self.last_active, now) > max_idle_time.nanos),
    {
        elapsed(self.last_active, now).nanos > max_idle_time.nanos
    }
}

/// A connection that waits for room in a pool.
#[derive(Debug)]
pub struct Waiting<S> {
    pub conn: PooledConnection<S>,
    /// Whether it is counted when it goes in.
    pub counted: bool,
}

/// The connections to one remote that are not in use, oldest first, and those
/// that wait for room, in the order they came.
pub struct PoolState<S> {
    queue: VecDeque<PooledConnection<S>>,
    waiting: VecDeque<Waiting<S>>,
    /// How many connections it holds at most.
    capacity: usize,
    stats: PoolStats,
    active: bool,
}

/// A pool, as sequences.
pub struct PoolView<S> {
    pub queue: Seq<PooledConnection<S>>,
    pub waiting: Seq<Waiting<S>>,
    pub capacity: usize,
    pub stats: StatsView,
    pub active: bool,
}

impl<S> View for PoolState<S> {
    type V = PoolView<S>;

    closed spec fn view(&self) -> PoolView<S> {
        PoolView {
            queue: self.queue@,
            waiting: self.waiting@,
            capacity: self.capacity,
            stats: self.stats@,
            active: self.active,
        }
    }
}

/// Whether a pool has room for one more beside those that wait already.
pub open spec fn has_room<S>(pool: PoolView<S>) -> bool {
    pool.queue.len() + pool.waiting.len() < pool.capacity
}

/// What is going on in a pool after a connection that was just made went in.
pub open spec fn counted_stats(stats: StatsView, counted: bool) -> StatsView {
    if counted {
        created_stats(stats)
    } else {
        stats
    }
}

/// A pool after a connection that was just made came: it is in, or it waits.
pub open spec fn offered<S>(
    pool: PoolView<S>,
    conn: PooledConnection<S>,
    counted: bool,
) -> PoolView<S> {
    if has_room(pool) {
        PoolView {
            queue: pool.queue.push(conn),
            stats: counted_stats(pool.stats, counted),
            ..pool
        }
    } else {
        PoolView { waiting: pool.waiting.push(Waiting { conn, counted }), ..pool }
    }
}

/// A pool after the first `n` connections that wait went in.
pub open spec fn admitted<S>(pool: PoolView<S>, n: nat) -> PoolView<S>
    decreases n,
{
    if n == 0 {
        pool
    } else {
        let before = admitted(pool, (n - 1) as nat);
        PoolView {
            queue: before.queue.push(before.waiting[0].conn),
            waiting: before.waiting.drop_first(),
            stats: counted_stats(before.stats, before.waiting[0].counted),
            ..before
        }
    }
}

/// How many of the connections that wait have room.
pub open spec fn admissible<S>(pool: PoolView<S>) -> nat {
    if pool.waiting.len() <= pool.capacity - pool.queue.len() {
        pool.waiting.len()
    } else {
        (pool.capacity - pool.queue.len()) as nat
    }
}

impl<S> PoolState<S> {
    /// No more connections than the pool holds.
    pub open spec fn wf(self) -> bool {
        self@.queue.len() <= self@.capacity && self@.stats.peak_concurrency_history.len()
            <= HISTORY_LIMIT
    }

    /// A pool without connections, with room for one at least.
    pub fn new(capacity: usize, now: u128) -> (p: PoolState<S>)
        requires
            0 < capacity <= MAX_CAPACITY,
        ensures
            p.wf(),
            p@ == (PoolView::<S> {
                queue: Seq::empty(),
                waiting: Seq::empty(),
                capacity,
                stats: new_stats(now),
                active: true,
            }),
    {
        let p: PoolState<S> = PoolState {
            queue: VecDeque::new(),
            waiting: VecDeque::new(),
            capacity,
            stats: PoolStats::new(now),
            active: true,
        };
        assert(p@.queue =~= Seq::empty());
        assert(p@.waiting =~= Seq::empty());
        p
    }

    /// How many connections are in the pool.
    pub fn len(&self) -> (n: usize)
        ensures
            n == self@.queue.len(),
    {
        self.queue.len()
    }

    /// What is going on in the pool.
    pub fn stats(&self) -> (s: &PoolStats)
        ensures
            s@ == self@.stats,
    {
        &self.stats
    }

    /// Puts a connection that was just made into the pool. Where there is no
    /// room it waits behind those that came before, and goes in with a later
    /// `let_in`. The result says whether it waits. Pools of one size do not count
    /// what they hold.
    pub fn offer(&mut self, conn: PooledConnection<S>, counted: bool) -> (waits: bool)
        requires
            old(self).wf(),
        ensures
            final(self).wf(),
            waits == !has_room(old(self)@),
            final(self)@ == offered(old(self)@, conn, counted),
    {
        if self.waiting.len() >= self.capacity - self.queue.len() {
            self.waiting.push_back(Waiting { conn, counted });
            return true;
        }
        self.queue.push_back(conn);
        if counted {
            self.stats.record_connection_created();
        }
        false
    }

    /// Lets connections that wait into the pool, first come first served, as
    /// long as there is room, counts them, and says how many went in.
    pub fn let_in(&mut self) -> (n: usize)
        requires
            old(self).wf(),
        ensures
            final(self).wf(),
            n == admissible(old(self)@),
            final(self)@ == admitted(old(self)@, n as nat),
    {
        let ghost before: PoolView<S> = self@;
        let mut n: usize = 0;
        while self.queue.len() < self.capacity && self.waiting.len() > 0
            invariant
                before == old(self)@,
                self.wf(),
                self@ == admitted(before, n as nat),
                self@.capacity == before.capacity,
                self@.queue.len() == before.queue.len() + n,
                self@.waiting.len() == before.waiting.len() - n,
                n <= before.capacity,
            decreases self@.waiting.len(),
        {
            let ghost earlier: PoolView<S> = self@;
            if let Some(first) = self.waiting.pop_front() {
                self.queue.push_back(first.conn);
                if first.counted {
                    self.stats.record_connection_created();
                }
                n = n + 1;
                assert(self@.queue =~= earlier.queue.push(earlier.waiting[0].conn));
                assert(self@.waiting =~= earlier.waiting.drop_first());
            }
        }
        n
    }

    /// Closes up to `count` of the oldest connections, and says how many.
    pub fn scale_down(&mut self, count: usize) -> (removed: usize)
        requires
            old(self).wf(),
        ensures
            final(self).wf(),
            removed == if count <= old(self)@.queue.len() {
                count as int
            } else {
                old(self)@.queue.len() as int
            },
            removed <= count && removed <= old(self)@.queue.len(),
            removed < count ==> final(self)@.queue.len() == 0,
            final(self)@ == (PoolView {
                queue: old(self)@.queue.skip(removed as int),
                stats: closed_stats(old(self)@.stats, removed as nat),
                ..old(self)@
            }),
    {
        let ghost before: PoolView<S> = self@;
        let mut removed: usize = 0;
        assert(before.queue.skip(0) =~= before.queue);
        while removed < count && self.queue.len() > 0
            invariant
                removed <= count,
                removed <= before.queue.len(),
                before == old(self)@,
                self.wf(),
                self@ == (PoolView {
                    queue: before.queue.skip(removed as int),
                    stats: closed_stats(before.stats, removed as nat),
                    ..before
                }),
            decreases count - removed,
        {
            let _oldest: Option<PooledConnection<S>> = self.queue.pop_front();
            assert(self@.queue =~= before.queue.skip(removed + 1));
            self.stats.record_connection_closed();
            removed = removed + 1;
            proof {
                lemma_closed_history(before.stats, removed as nat);
            }
        }
        removed
    }

    /// Notes that the pool grew or shrank.
    pub fn record_scaling(&mut self, now: u128)
        requires
            old(self).wf(),
        ensures
            final(self).wf(),
            final(self)@ == (PoolView {
                stats: StatsView { last_scaling_time: now, ..old(self)@.stats },
                ..old(self)@
            }),
    {
        self.stats.record_scaling(now);
    }

    /// Stops the pool.
    pub fn mark_inactive(&mut self)
        ensures
            final(self)@ == (PoolView { active: false, ..old(self)@ }),
    {
        self.active = false;
    }

    /// Whether the pool runs.
    pub fn is_active(&self) -> (b: bool)
        ensures
            b == self@.active,
    {
        self.active
    }
}

proof fn lemma_closed_history(stats: StatsView, n: nat)
    ensures
        closed_stats(stats, n).peak_concurrency_history == stats.peak_concurrency_history,
    decreases n,
{
    if n > 0 {
        lemma_closed_history(stats, (n - 1) as nat);
    }
}

/// The connections among some that wait.
pub open spec fn conns_of<S>(waiting: Seq<Waiting<S>>) -> Seq<PooledConnection<S>> {
    waiting.map_values(|w: Waiting<S>| w.conn)
}

/// The connections in a pool and those that wait, in the order they are handed
/// out.
pub open spec fn line_of<S>(pool: PoolView<S>) -> Seq<PooledConnection<S>> {
    pool.queue + conns_of(pool.waiting)
}

/// A connection that is made is never lost and never overtakes another: it comes
/// last in line, whether it goes in at once or waits; and it waits only where
/// the pool and those before it take all the room.
pub proof fn offer_goes_to_the_end<S>(
    pool: PoolView<S>,
    conn: PooledConnection<S>,
    counted: bool,
)
    requires
        pool.waiting.len() > 0 ==> pool.queue.len() == pool.capacity,
    ensures
        line_of(offered(pool, conn, counted)) == line_of(pool).push(conn),
{
    let after = offered(pool, conn, counted);
    if has_room(pool) {
        assert(line_of(after) =~= line_of(pool).push(conn));
    } else {
        assert(conns_of(after.waiting) =~= conns_of(pool.waiting).push(conn));
        assert(line_of(after) =~= line_of(pool).push(conn));
    }
}

/// Letting connections in keeps the line as it is, and leaves one waiting only
/// where the pool is full.
pub proof fn admission_keeps_the_line<S>(pool: PoolView<S>, n: nat)
    requires
        pool.queue.len() <= pool.capacity,
        n <= admissible(pool),
    ensures
        line_of(admitted(pool, n)) == line_of(pool),
        n == admissible(pool) && admitted(pool, n).waiting.len() > 0 ==> admitted(
            pool,
            n,
        ).queue.len() == pool.capacity,
        admitted(pool, n).queue.len() == pool.queue.len() + n,
        admitted(pool, n).waiting.len() == pool.waiting.len() - n,
        admitted(pool, n).capacity == pool.capacity,
    decreases n,
{
    if n > 0 {
        admission_keeps_the_line(pool, (n - 1) as nat);
        let before = admitted(pool, (n - 1) as nat);
        let after = admitted(pool, n);
        assert(conns_of(before.waiting) =~= seq![before.waiting[0].conn] + conns_of(
            after.waiting,
        ));
        assert(line_of(after) =~= line_of(before));
    }
}

/// Whether the first `k` connections were found unusable.
pub open spec fn unusable<S, F: Fn(&S) -> bool>(
    queue: Seq<PooledConnection<S>>,
    k: int,
    healthy: F,
) -> bool {
    forall|i: int|
        0 <= i < k ==> call_ensures(healthy, (&(#[trigger] queue[i]).stream,), false)
}

/// Whether taking a connection out of a pool went right: the first `k`
/// connections were found unusable and dropped, and the next one, if there is
/// one, is handed out.
pub open spec fn is_taking<S, F: Fn(&S) -> bool>(
    before: PoolView<S>,
    after: PoolView<S>,
    taken: Option<PooledConnection<S>>,
    k: int,
    now: u128,
    healthy: F,
) -> bool {
    let queue = before.queue;
    &&& 0 <= k <= queue.len()
    &&& unusable(queue, k, healthy)
    &&& match taken {
        Some(conn) => k < queue.len() && call_ensures(healthy, (&queue[k].stream,), true) && conn
            == (PooledConnection { last_active: now, ..queue[k] }) && after == (PoolView {
            queue: queue.skip(k + 1),
            stats: acquired_stats(closed_stats(before.stats, k as nat)),
            ..before
        }),
        None => k == queue.len() && after == (PoolView {
            queue: Seq::empty(),
            stats: closed_stats(before.stats, k as nat),
            ..before
        }),
    }
}

/// Takes the oldest usable connection out of a pool. Older ones that are not
/// usable are dropped.
pub fn get_connection_from_pool<S>(
    pool: &mut PoolState<S>,
    now: u128,
    healthy: impl Fn(&S) -> bool,
) -> (taken: Option<PooledConnection<S>>)
    requires
        old(pool).wf(),
        forall|stream: &S| #[trigger] call_requires(healthy, (stream,)),
    ensures
        final(pool).wf(),
        exists|k: int| #[trigger] is_taking(old(pool)@, final(pool)@, taken, k, now, healthy),
{
    let ghost before: PoolView<S> = pool@;
    let ghost queue: Seq<PooledConnection<S>> = pool@.queue;
    let ghost mut k: int = 0;
    assert(queue.skip(0) =~= queue);
    loop
        invariant
            forall|stream: &S| #[trigger] call_requires(healthy, (stream,)),
            before == old(pool)@,
            queue == before.queue,
            0 <= k <= queue.len(),
            unusable(queue, k, healthy),
            pool.wf(),
            pool@ == (PoolView {
                queue: queue.skip(k),
                stats: closed_stats(before.stats, k as nat),
                ..before
            }),
        decreases pool@.queue.len(),
    {
        let mut conn: PooledConnection<S> = match pool.queue.pop_front() {
            Some(conn) => conn,
            None => {
                assert(pool@.queue =~= Seq::empty());
                assert(is_taking(before, pool@, None, k, now, healthy));
                return None;
            },
        };
        assert(conn == queue[k]);
        assert(pool@.queue =~= queue.skip(k + 1));
        if healthy(&conn.stream) {
            conn.touch(now);
            pool.stats.record_connection_acquired();
            assert(is_taking(before, pool@, Some(conn), k, now, healthy));
            return Some(conn);
        }
        pool.stats.record_connection_closed();
        proof {
            k = k + 1;
            assert(pool@.queue =~= queue.skip(k));
        }
    }
}

/// A pool after a connection came back.
pub open spec fn returned<S>(
    pool: PoolView<S>,
    conn: PooledConnection<S>,
    healthy: bool,
    now: u128,
) -> PoolView<S> {
    let kept = healthy && has_room(pool);
    PoolView {
        queue: if kept {
            pool.queue.push(PooledConnection { last_active: now, ..conn })
        } else {
            pool.queue
        },
        stats: released_stats(pool.stats, kept),
        ..pool
    }
}

/// Takes a connection back into a pool, and says whether it is kept: it is,
/// where it is usable and the pool has room beside those that wait.
pub fn return_connection_to_pool<S>(
    pool: &mut PoolState<S>,
    conn: PooledConnection<S>,
    healthy: bool,
    now: u128,
) -> (kept: bool)
    requires
        old(pool).wf(),
    ensures
        final(pool).wf(),
        kept == (healthy && has_room(old(pool)@)),
        final(pool)@ == returned(old(pool)@, conn, healthy, now),
{
    if healthy && pool.waiting.len() < pool.capacity - pool.queue.len() {
        let mut conn: PooledConnection<S> = conn;
        conn.touch(now);
        pool.queue.push_back(conn);
        pool.stats.record_connection_released(true);
        return true;
    }
    pool.stats.record_connection_released(false);
    false
}

/// The connections in all, in the pool and in use, and the recent peak, where
/// there is a pool.
pub fn get_pool_statistics<S>(pool: Option<&PoolState<S>>) -> (r: Option<
    (usize, usize, usize, usize),
>)
    ensures
        r == match pool {
            Some(p) => Some(
                (
                    p@.stats.total_connections,
                    p@.stats.available_connections,
                    p@.stats.active_connections,
                    peak(p@.stats.peak_concurrency_history),
                ),
            ),
            None => None,
        },
{
    match pool {
        Some(p) => Some(
            (
                p.stats.total_connections,
                p.stats.available_connections,
                p.stats.active_connections,
                p.stats.get_recent_peak_concurrency(),
            ),
        ),
        None => None,
    }
}

/// Whether a connection was not used for too long to stay in a pool.
pub open spec fn is_stale<S>(
    conn: PooledConnection<S>,
    idle_timeout: Duration,
    now: u128,
) -> bool {
    elapsed_spec(conn.last_active, now) > idle_timeout.nanos
}

/// Whether the findings on some connections are right: a connection stays where
/// it is not stale and usable.
pub open spec fn checked<S, F: Fn(&S) -> bool>(
    queue: Seq<PooledConnection<S>>,
    stays: Seq<bool>,
    idle_timeout: Duration,
    now: u128,
    healthy: F,
) -> bool {
    &&& stays.len() == queue.len()
    &&& forall|i: int|
        0 <= i < stays.len() ==> if #[trigger] stays[i] {
            !is_stale(queue[i], idle_timeout, now) && call_ensures(
                healthy,
                (&queue[i].stream,),
                true,
            )
        } else {
            is_stale(queue[i], idle_timeout, now) || call_ensures(
                healthy,
                (&queue[i].stream,),
                false,
            )
        }
}

/// The connections that stay, in order, each noted as used.
pub open spec fn staying<S>(
    queue: Seq<PooledConnection<S>>,
    stays: Seq<bool>,
    now: u128,
) -> Seq<PooledConnection<S>>
    decreases queue.len(),
{
    if queue.len() == 0 {
        Seq::empty()
    } else {
        let before = staying(queue.drop_last(), stays.drop_last(), now);
        if stays.last() {
            before.push(PooledConnection { last_active: now, ..queue.last() })
        } else {
            before
        }
    }
}

/// The room that a pool has beside those that wait.
pub open spec fn room_beside<S>(pool: PoolView<S>) -> int {
    if pool.waiting.len() <= pool.capacity {
        pool.capacity - pool.waiting.len()
    } else {
        0
    }
}

/// The first `n` connections of some, or all where there are no more.
pub open spec fn at_most<S>(conns: Seq<PooledConnection<S>>, n: int) -> Seq<PooledConnection<S>> {
    if conns.len() <= n {
        conns
    } else {
        conns.take(n)
    }
}

/// Checks the connections of a pool, drops those that were not used for longer
/// than `idle_timeout` or are not usable, and says how many went. All are taken
/// out to be checked, so those that wait get their room first: of the others as
/// many go back as still fit, the oldest first.
pub fn health_check<S>(
    pool: &mut PoolState<S>,
    idle_timeout: Duration,
    now: u128,
    healthy: impl Fn(&S) -> bool,
) -> (dropped: usize)
    requires
        old(pool).wf(),
        forall|stream: &S| #[trigger] call_requires(healthy, (stream,)),
    ensures
        final(pool).wf(),
        dropped == old(pool)@.queue.len() - final(pool)@.queue.len(),
        exists|stays: Seq<bool>| #[trigger]
            checked(old(pool)@.queue, stays, idle_timeout, now, healthy) && final(pool)@ == (
            PoolView {
                queue: at_most(
                    staying(old(pool)@.queue, stays, now),
                    room_beside(old(pool)@),
                ),
                ..old(pool)@
            }),
{
    let ghost initial: PoolView<S> = pool@;
    let ghost queue: Seq<PooledConnection<S>> = pool@.queue;
    let ghost mut stays: Seq<bool> = Seq::empty();
    let before: usize = pool.queue.len();
    let mut kept: VecDeque<PooledConnection<S>> = VecDeque::new();
    assert(queue.skip(0) =~= queue);
    assert(kept@ =~= staying(queue.take(0), stays, now));
    loop
        invariant
            forall|stream: &S| #[trigger] call_requires(healthy, (stream,)),
            initial == old(pool)@,
            queue == initial.queue,
            before == queue.len(),
            stays.len() <= queue.len(),
            pool.wf(),
            queue.len() <= pool@.capacity,
            pool@ == (PoolView { queue: queue.skip(stays.len() as int), ..initial }),
            kept@ == staying(queue.take(stays.len() as int), stays, now),
            kept@.len() <= stays.len(),
            forall|i: int|
                0 <= i < stays.len() ==> if #[trigger] stays[i] {
                    !is_stale(queue[i], idle_timeout, now) && call_ensures(
                        healthy,
                        (&queue[i].stream,),
                        true,
                    )
                } else {
                    is_stale(queue[i], idle_timeout, now) || call_ensures(
                        healthy,
                        (&queue[i].stream,),
                        false,
                    )
                },
        ensures
            stays.len() == queue.len(),
        decreases pool@.queue.len(),
    {
        let ghost earlier: Seq<bool> = stays;
        let ghost n: int = stays.len() as int;
        let mut conn: PooledConnection<S> = match pool.queue.pop_front() {
            Some(conn) => conn,
            None => {
                break;
            },
        };
        assert(conn == queue[n]);
        assert(pool@.queue =~= queue.skip(n + 1));
        assert(queue.take(n + 1).drop_last() =~= queue.take(n));
        assert(queue.take(n + 1).last() == conn);
        if !conn.is_expired(idle_timeout, now) && healthy(&conn.stream) {
            proof {
                stays = earlier.push(true);
                assert(stays.drop_last() =~= earlier);
            }
            conn.touch(now);
            kept.push_back(conn);
        } else {
            proof {
                stays = earlier.push(false);
                assert(stays.drop_last() =~= earlier);
            }
        }
    }
    assert(queue.take(stays.len() as int) =~= queue);
    assert(checked(queue, stays, idle_timeout, now, healthy));
    let room: usize = if pool.waiting.len() <= pool.capacity {
        pool.capacity - pool.waiting.len()
    } else {
        0
    };
    let ghost all: Seq<PooledConnection<S>> = kept@;
    kept.truncate(room);
    assert(kept@ =~= at_most(all, room as int));
    let dropped: usize = before - kept.len();
    pool.queue = kept;
    dropped
}

/// A check of a pool in which none waits drops the stale and the unusable only.
pub proof fn check_keeps_the_good<S>(pool: PoolView<S>, stays: Seq<bool>, now: u128)
    requires
        pool.waiting.len() == 0,
        pool.queue.len() <= pool.capacity,
        stays.len() == pool.queue.len(),
    ensures
        at_most(staying(pool.queue, stays, now), room_beside(pool)) == staying(
            pool.queue,
            stays,
            now,
        ),
{
    lemma_staying_len(pool.queue, stays, now);
}

proof fn lemma_staying_len<S>(queue: Seq<PooledConnection<S>>, stays: Seq<bool>, now: u128)
    ensures
        staying(queue, stays, now).len() <= queue.len(),
    decreases queue.len(),
{
    if queue.len() > 0 {
        lemma_staying_len(queue.drop_last(), stays.drop_last(), now);
    }
}

/// How a pool is set up.
#[derive(Clone, Copy, Debug, PartialEq, Eq, Structural)]
pub struct PoolParameters {
    pub pool_size: usize,
    pub buffer_size: usize,
    pub dynamic: Option<DynamicStrategyConfig>,
}

/// How pools are set up: of one size, which is 50 where none is set; growing
/// and shrinking; or, where the strategy is not known, of size 50.
pub open spec fn parameters_of(strategy: PoolStrategyConfig) -> PoolParameters {
    if strategy.strategy_type@ == "static"@ {
        let size = match strategy.static_ {
            Some(s) => s.size_per_remote,
            None => 50,
        };
        PoolParameters { pool_size: size, buffer_size: (size * 2) as usize, dynamic: None }
    } else if strategy.strategy_type@ == "dynamic"@ {
        let d = strategy.dynamic->Some_0;
        PoolParameters {
            pool_size: d.min_size,
            buffer_size: if d.max_size >= 100 {
                d.max_size
            } else {
                100
            },
            dynamic: Some(d),
        }
    } else {
        PoolParameters { pool_size: 50, buffer_size: 100, dynamic: None }
    }
}

/// Decides how pools are set up. A dynamic strategy has its settings, and a
/// static size can be doubled.
pub fn pool_parameters(strategy: &PoolStrategyConfig) -> (p: PoolParameters)
    requires
        strategy.strategy_type@ == "dynamic"@ ==> strategy.dynamic is Some,
        strategy.strategy_type@ == "static"@ && strategy.static_ is Some
            ==> strategy.static_->Some_0.size_per_remote * 2 <= usize::MAX,
    ensures
        p == parameters_of(*strategy),
{
    if same_str(strategy.strategy_type.as_str(), "static") {
        let size: usize = match &strategy.static_ {
            Some(s) => s.size_per_remote,
            None => 50,
        };
        return PoolParameters { pool_size: size, buffer_size: size * 2, dynamic: None };
    }
    if same_str(strategy.strategy_type.as_str(), "dynamic") {
        if let Some(d) = strategy.dynamic {
            return PoolParameters {
                pool_size: d.min_size,
                buffer_size: if d.max_size >= 100 {
                    d.max_size
                } else {
                    100
                },
                dynamic: Some(d),
            };
        }
    }
    PoolParameters { pool_size: 50, buffer_size: 100, dynamic: None }
}

/// How a pool changes its size.
#[derive(Clone, Copy, Debug, PartialEq, Eq, Structural)]
pub enum ScalingStep {
    /// It changed too recently.
    TooSoon,
    /// Make this many connections.
    Up(usize),
    /// Close this many connections.
    Down(usize),
    Stay,
}

/// A number kept between two others.
pub open spec fn between(n: int, low: int, high: int) -> int {
    if n < low {
        low
    } else if n > high {
        high
    } else {
        n
    }
}

/// The smaller of two numbers.
pub open spec fn least(a: int, b: int) -> int {
    if a <= b {
        a
    } else {
        b
    }
}

/// How a pool changes its size: by no more than the increments towards the
/// size it should have, never within a second of the last change, and down
/// only while enough connections are in the pool.
pub open spec fn scaling_of(
    target: int,
    total: int,
    available: int,
    since_last: int,
    config: DynamicStrategyConfig,
) -> ScalingStep {
    let size = between(target, config.min_size as int, config.max_size as int);
    let grow = least(size - total, config.scaling.scale_up_increment as int);
    let shrink = least(total - size, config.scaling.scale_down_increment as int);
    if since_last < NANOS_PER_SEC {
        ScalingStep::TooSoon
    } else if size > total && grow > 0 {
        ScalingStep::Up(grow as usize)
    } else if size < total && available > config.scaling.scale_down_increment && shrink > 0 {
        ScalingStep::Down(shrink as usize)
    } else {
        ScalingStep::Stay
    }
}

/// Decides how a pool changes its size.
pub fn decide_scaling(
    target_size: usize,
    total: usize,
    available: usize,
    since_last: Duration,
    config: &DynamicStrategyConfig,
) -> (step: ScalingStep)
    requires
        config.min_size <= config.max_size,
    ensures
        step == scaling_of(
            target_size as int,
            total as int,
            available as int,
            since_last.nanos as int,
            *config,
        ),
{
    let size: usize = if target_size < config.min_size {
        config.min_size
    } else if target_size > config.max_size {
        config.max_size
    } else {
        target_size
    };
    if since_last.nanos < NANOS_PER_SEC {
        return ScalingStep::TooSoon;
    }
    if size > total {
        let missing: usize = size - total;
        let count: usize = if missing <= config.scaling.scale_up_increment {
            missing
        } else {
            config.scaling.scale_up_increment
        };
        if count > 0 {
            return ScalingStep::Up(count);
        }
    } else if size < total && available > config.scaling.scale_down_increment {
        let extra: usize = total - size;
        let count: usize = if extra <= config.scaling.scale_down_increment {
            extra
        } else {
            config.scaling.scale_down_increment
        };
        if count > 0 {
            return ScalingStep::Down(count);
        }
    }
    ScalingStep::Stay
}

/// A change of size leads no further than the size a pool should have, which
/// lies within its limits.
pub proof fn scaling_stays_within_limits(
    target: int,
    total: int,
    available: int,
    since_last: int,
    config: DynamicStrategyConfig,
)
    requires
        config.min_size <= config.max_size,
        0 <= total <= usize::MAX,
    ensures
        match scaling_of(target, total, available, since_last, config) {
            ScalingStep::Up(n) => 0 < n && total + n <= between(
                target,
                config.min_size as int,
                config.max_size as int,
            ) <= config.max_size,
            ScalingStep::Down(n) => 0 < n && total - n >= between(
                target,
                config.min_size as int,
                config.max_size as int,
            ) >= config.min_size,
            _ => true,
        },
{
}

/// How many connections a pool that grows and shrinks is short of: up to its
/// smallest size, and up to a quarter of its connections, or two, in the pool;
/// but no more than it may hold.
pub open spec fn fill_need(total: int, available: int, min_size: int, max_size: int) -> int {
    let missing = if min_size > total {
        min_size - total
    } else {
        0
    };
    let threshold = if total / 4 >= 2 {
        total / 4
    } else {
        2
    };
    let short = if available < threshold {
        threshold - available
    } else {
        0
    };
    let needed = if missing >= short {
        missing
    } else {
        short
    };
    if needed > 0 && total < max_size {
        least(needed, max_size - total)
    } else {
        0
    }
}

/// How many connections to make for a pool that grows and shrinks.
pub fn dynamic_fill_count(total: usize, available: usize, config: &DynamicStrategyConfig) -> (n:
    usize)
    ensures
        n == fill_need(
            total as int,
            available as int,
            config.min_size as int,
            config.max_size as int,
        ),
{
    let missing: usize = config.min_size.saturating_sub(total);
    let threshold: usize = if total / 4 >= 2 {
        total / 4
    } else {
        2
    };
    let short: usize = if available < threshold {
        threshold - available
    } else {
        0
    };
    let needed: usize = if missing >= short {
        missing
    } else {
        short
    };
    if needed > 0 && total < config.max_size {
        let room: usize = config.max_size - total;
        return if needed <= room {
            needed
        } else {
            room
        };
    }
    0
}

/// Filling a pool never takes it past its largest size.
pub proof fn filling_stays_within_limits(total: nat, available: nat, min_size: nat, max_size: nat)
    ensures
        total <= max_size ==> total + fill_need(
            total as int,
            available as int,
            min_size as int,
            max_size as int,
        ) <= max_size,
        fill_need(total as int, available as int, min_size as int, max_size as int) >= 0,
{
}

/// How many connections a pool of one size is short of.
pub open spec fn static_need(current: usize, target: usize) -> int {
    if target > current {
        target - current
    } else {
        0
    }
}

/// How many connections to make for a pool of one size.
pub fn static_fill_count(current: usize, target: usize) -> (n: usize)
    ensures
        n == static_need(current, target),
{
    target.saturating_sub(current)
}

/// The pools to make and to stop.
#[derive(Debug)]
pub struct PoolChanges {
    pub create: Vec<IpAddr>,
    pub remove: Vec<IpAddr>,
}

/// Whether no address is listed twice.
pub open spec fn all_different(ips: Seq<IpAddr>) -> bool {
    forall|i: int, j: int| 0 <= i < j < ips.len() ==> #[trigger] ips[i] != #[trigger] ips[j]
}

/// Whether these are the pools to make and to stop: a remote that came into use
/// gets a pool unless it has one, and a remote that went out of use loses it.
pub open spec fn are_pool_changes(
    changes: PoolChanges,
    current: Seq<IpAddr>,
    last_known: Seq<IpAddr>,
    pooled: Seq<IpAddr>,
) -> bool {
    &&& all_different(changes.create@)
    &&& all_different(changes.remove@)
    &&& forall|ip: IpAddr| #[trigger]
        changes.create@.contains(ip) <==> current.contains(ip) && !last_known.contains(ip)
            && !pooled.contains(ip)
    &&& forall|ip: IpAddr| #[trigger]
        changes.remove@.contains(ip) <==> last_known.contains(ip) && !current.contains(ip)
            && pooled.contains(ip)
}

/// Decides which pools to make and which to stop.
pub fn plan_pools(current: &Vec<IpAddr>, last_known: &Vec<IpAddr>, pooled: &Vec<IpAddr>) -> (c:
    PoolChanges)
    ensures
        are_pool_changes(c, current@, last_known@, pooled@),
{
    let mut create: Vec<IpAddr> = Vec::new();
    let mut i: usize = 0;
    while i < current.len()
        invariant
            i <= current@.len(),
            all_different(create@),
            forall|ip: IpAddr| #[trigger]
                create@.contains(ip) <==> current@.take(i as int).contains(ip)
                    && !last_known@.contains(ip) && !pooled@.contains(ip),
        decreases current@.len() - i,
    {
        let ip: IpAddr = current[i];
        let ghost before: Seq<IpAddr> = create@;
        if !names_ip(last_known.as_slice(), ip) && !names_ip(pooled.as_slice(), ip) && !names_ip(
            create.as_slice(),
            ip,
        ) {
            create.push(ip);
        }
        proof {
            lemma_contains_step(current@, i as int);
            assert forall|x: IpAddr| #[trigger] create@.contains(x) <==> before.contains(x) || (
            x == ip && create@.len() > before.len()) by {
                lemma_contains_push(before, ip, x);
            }
        }
        i = i + 1;
    }
    assert(current@.take(i as int) =~= current@);
    let mut remove: Vec<IpAddr> = Vec::new();
    let mut k: usize = 0;
    while k < last_known.len()
        invariant
            k <= last_known@.len(),
            all_different(remove@),
            forall|ip: IpAddr| #[trigger]
                remove@.contains(ip) <==> last_known@.take(k as int).contains(ip)
                    && !current@.contains(ip) && pooled@.contains(ip),
        decreases last_known@.len() - k,
    {
        let ip: IpAddr = last_known[k];
        let ghost before: Seq<IpAddr> = remove@;
        if !names_ip(current.as_slice(), ip) && names_ip(pooled.as_slice(), ip) && !names_ip(
            remove.as_slice(),
            ip,
        ) {
            remove.push(ip);
        }
        proof {
            lemma_contains_step(last_known@, k as int);
            assert forall|x: IpAddr| #[trigger] remove@.contains(x) <==> before.contains(x) || (
            x == ip && remove@.len() > before.len()) by {
                lemma_contains_push(before, ip, x);
            }
        }
        k = k + 1;
    }
    assert(last_known@.take(k as int) =~= last_known@);
    PoolChanges { create, remove }
}

/// Where the remotes last known to be in use are those with a pool, the changes
/// lead to pools for just the remotes in use now.
pub proof fn pools_follow_remotes(
    changes: PoolChanges,
    current: Seq<IpAddr>,
    last_known: Seq<IpAddr>,
    pooled: Seq<IpAddr>,
    ip: IpAddr,
)
    requires
        are_pool_changes(changes, current, last_known, pooled),
        last_known.contains(ip) <==> pooled.contains(ip),
    ensures
        current.contains(ip) <==> (pooled.contains(ip) || changes.create@.contains(ip))
            && !changes.remove@.contains(ip),
{
}

proof fn lemma_contains_push(s: Seq<IpAddr>, item: IpAddr, x: IpAddr)
    ensures
        s.push(item).contains(x) <==> s.contains(x) || x == item,
{
    let t = s.push(item);
    if s.contains(x) {
        let w = choose|w: int| 0 <= w < s.len() && s[w] == x;
        assert(t[w] == x);
    }
    if x == item {
        assert(t[s.len() as int] == x);
    }
}

proof fn lemma_contains_step(s: Seq<IpAddr>, i: int)
    requires
        0 <= i < s.len(),
    ensures
        forall|x: IpAddr| #[trigger]
            s.take(i + 1).contains(x) <==> s.take(i).contains(x) || x == s[i],
{
    assert(s.take(i + 1) =~= s.take(i).push(s[i]));
    assert forall|x: IpAddr| #[trigger] s.take(i + 1).contains(x) <==> s.take(i).contains(x) || x
        == s[i] by {
        lemma_contains_push(s.take(i), s[i], x);
    }
}

/// A pool that changed less than a second ago does not change, and every other
/// does what its size asks for.
pub proof fn changes_are_a_second_apart(
    target: int,
    total: int,
    available: int,
    since_last: int,
    config: DynamicStrategyConfig,
)
    ensures
        scaling_of(target, total, available, since_last, config) is TooSoon <==> since_last
            < 1_000_000_000,
{
}

/// A pool below the size it should have grows, whatever is in it: by what it is
/// short of, or by the step that is set where that is less.
pub proof fn short_pools_grow(
    target: int,
    total: int,
    available: int,
    since_last: int,
    config: DynamicStrategyConfig,
    size: int,
)
    requires
        since_last >= 1_000_000_000,
        0 <= total < size,
        config.min_size <= size <= config.max_size,
        size == target || (target < size && size == config.min_size) || (target > size && size
            == config.max_size),
        config.scaling.scale_up_increment > 0,
    ensures
        scaling_of(target, total, available, since_last, config) matches ScalingStep::Up(n) && n
            <= size - total && n <= config.scaling.scale_up_increment && (n == size - total || n
            == config.scaling.scale_up_increment),
{
}

/// A pool above the size it should have shrinks where more is in it than the step
/// that is set: by what it has too many, or by that step where it is less. Where
/// no more is in it, it stays as it is.
pub proof fn large_pools_shrink(
    target: int,
    total: int,
    available: int,
    since_last: int,
    config: DynamicStrategyConfig,
    size: int,
)
    requires
        since_last >= 1_000_000_000,
        size < total <= usize::MAX,
        config.min_size <= size <= config.max_size,
        size == target || (target < size && size == config.min_size) || (target > size && size
            == config.max_size),
    ensures
        available <= config.scaling.scale_down_increment ==> scaling_of(
            target,
            total,
            available,
            since_last,
            config,
        ) is Stay,
        available > config.scaling.scale_down_increment > 0 ==> (scaling_of(
            target,
            total,
            available,
            since_last,
            config,
        ) matches ScalingStep::Down(n) && n <= total - size && n
            <= config.scaling.scale_down_increment && (n == total - size || n
            == config.scaling.scale_down_increment)),
{
}

/// A pool of the size it should have stays as it is.
pub proof fn right_sizes_stay(
    target: int,
    available: int,
    since_last: int,
    config: DynamicStrategyConfig,
    size: int,
)
    requires
        since_last >= 1_000_000_000,
        config.min_size <= size <= config.max_size,
        size == target || (target < size && size == config.min_size) || (target > size && size
            == config.max_size),
    ensures
        scaling_of(target, size, available, since_last, config) is Stay,
{
}

/// Filling makes the fewest connections with which a pool has its smallest size
/// and, of its connections, two and a quarter at hand; fewer only where it would
/// grow past its largest size.
pub proof fn filling_makes_what_is_missing(
    total: nat,
    available: nat,
    min_size: nat,
    max_size: nat,
    n: int,
)
    requires
        n == fill_need(total as int, available as int, min_size as int, max_size as int),
    ensures
        total >= max_size ==> n == 0,
        total < max_size && total + n < max_size ==> total + n >= min_size && available + n >= 2
            && available + n >= total / 4,
        n > 0 ==> !(total + n - 1 >= min_size && available + n - 1 >= 2 && available + n - 1
            >= total / 4),
        total < max_size && !(total >= min_size && available >= 2 && available >= total / 4)
            ==> n > 0,
{
}

/// A pool of one size is filled up to it, and never beyond.
pub proof fn static_filling_reaches_the_size(current: usize, target: usize)
    ensures
        current <= target ==> current + static_need(current, target) == target,
        current > target ==> static_need(current, target) == 0,
{
}

/// A pool gets room for twice its size where it has one size, for its largest
/// size and for a hundred at least where it grows and shrinks, and is of size
/// fifty where nothing else is set.
pub proof fn strategies_set_sizes(strategy: PoolStrategyConfig)
    ensures
        strategy.strategy_type@ == "static"@ && strategy.static_ is Some
            && strategy.static_->Some_0.size_per_remote * 2 <= usize::MAX ==> parameters_of(
            strategy,
        ).pool_size == strategy.static_->Some_0.size_per_remote && parameters_of(
            strategy,
        ).buffer_size == 2 * strategy.static_->Some_0.size_per_remote && parameters_of(
            strategy,
        ).dynamic is None,
        strategy.strategy_type@ == "static"@ && strategy.static_ is None ==> parameters_of(
            strategy,
        ).pool_size == 50 && parameters_of(strategy).buffer_size == 100 && parameters_of(
            strategy,
        ).dynamic is None,
        strategy.strategy_type@ == "dynamic"@ && strategy.dynamic is Some ==> {
            let p = parameters_of(strategy);
            &&& p.dynamic == strategy.dynamic
            &&& p.pool_size == strategy.dynamic->Some_0.min_size
            &&& p.buffer_size >= 100
            &&& p.buffer_size >= strategy.dynamic->Some_0.max_size
            &&& p.buffer_size == 100 || p.buffer_size == strategy.dynamic->Some_0.max_size
        },
        strategy.strategy_type@ != "static"@ && strategy.strategy_type@ != "dynamic"@
            ==> parameters_of(strategy).pool_size == 50 && parameters_of(strategy).buffer_size
            == 100 && parameters_of(strategy).dynamic is None,
{
    reveal_strlit("static");
    reveal_strlit("dynamic");
    assert("static"@.len() == 6 && "dynamic"@.len() == 7);
}

/// Pools are made only for remotes in use that have none, stopped only for
/// remotes that are no longer in use, and no pool is made or stopped twice.
pub proof fn pools_change_with_use(
    changes: PoolChanges,
    current: Seq<IpAddr>,
    last_known: Seq<IpAddr>,
    pooled: Seq<IpAddr>,
    i: int,
    j: int,
)
    requires
        are_pool_changes(changes, current, last_known, pooled),
    ensures
        0 <= i < changes.create@.len() ==> current.contains(changes.create@[i])
            && !pooled.contains(changes.create@[i]),
        0 <= i < changes.remove@.len() ==> !current.contains(changes.remove@[i])
            && pooled.contains(changes.remove@[i]),
        0 <= i < j < changes.create@.len() ==> changes.create@[i] != changes.create@[j],
        0 <= i < j < changes.remove@.len() ==> changes.remove@[i] != changes.remove@[j],
{
    if 0 <= i < changes.create@.len() {
        assert(changes.create@.contains(changes.create@[i]));
    }
    if 0 <= i < changes.remove@.len() {
        assert(changes.remove@.contains(changes.remove@[i]));
    }
}

/// What happens to a connection moves the counts by one, as long as they have
/// room: made, it is one more in all and in the pool; taken, one more in use and
/// one less in the pool; given back, the other way round; closed, one less in
/// all.
pub proof fn counts_move_by_one(stats: StatsView)
    requires
        0 < stats.active_connections < usize::MAX,
        0 < stats.available_connections < usize::MAX,
        0 < stats.total_connections < usize::MAX,
    ensures
        created_stats(stats).total_connections == stats.total_connections + 1,
        created_stats(stats).available_connections == stats.available_connections + 1,
        created_stats(stats).active_connections == stats.active_connections,
        acquired_stats(stats).active_connections == stats.active_connections + 1,
        acquired_stats(stats).available_connections == stats.available_connections - 1,
        acquired_stats(stats).total_connections == stats.total_connections,
        stats.connection_requests < u64::MAX ==> acquired_stats(stats).connection_requests
            == stats.connection_requests + 1,
        released_stats(stats, true).active_connections == stats.active_connections - 1,
        released_stats(stats, true).available_connections == stats.available_connections + 1,
        released_stats(stats, true).total_connections == stats.total_connections,
        released_stats(stats, false).active_connections == stats.active_connections - 1,
        released_stats(stats, false).available_connections == stats.available_connections,
        released_stats(stats, false).total_connections == stats.total_connections - 1,
        one_closed(stats).available_connections == stats.available_connections - 1,
        one_closed(stats).total_connections == stats.total_connections - 1,
        one_closed(stats).active_connections == stats.active_connections,
{
}

/// Counts wrap: behind the largest number comes zero, before zero the largest.
pub proof fn counts_wrap(n: usize)
    ensures
        n < usize::MAX ==> up(n) == n + 1 && down(up(n)) == n,
        up(usize::MAX) == 0,
        down(0) == usize::MAX,
{
}

/// Closing connections one after another lowers both counts by as many.
pub proof fn closing_counts_each(stats: StatsView, n: nat)
    requires
        n <= stats.available_connections,
        n <= stats.total_connections,
    ensures
        closed_stats(stats, n).available_connections == stats.available_connections - n,
        closed_stats(stats, n).total_connections == stats.total_connections - n,
        closed_stats(stats, n).active_connections == stats.active_connections,
        closed_stats(stats, n).peak_concurrency_history == stats.peak_concurrency_history,
    decreases n,
{
    if n > 0 {
        closing_counts_each(stats, (n - 1) as nat);
    }
}

/// The history holds the last hundred entries: the newest comes last, and only
/// the oldest is forgotten, only where there are a hundred.
pub proof fn history_keeps_the_latest(history: Seq<usize>, entry: usize)
    requires
        history.len() <= 100,
    ensures
        remembered(history, entry).last() == entry,
        remembered(history, entry).len() <= 100,
        history.len() < 100 ==> remembered(history, entry).drop_last() == history,
        history.len() == 100 ==> remembered(history, entry).drop_last() == history.drop_first(),
{
    if history.len() < 100 {
        assert(remembered(history, entry).drop_last() =~= history);
    } else {
        assert(remembered(history, entry).drop_last() =~= history.drop_first());
    }
}

/// A connection waits exactly where the pool and those that wait take all the
/// room. Where it does not, it is the newest in the pool, and counted where it is
/// to be.
pub proof fn full_pools_make_wait<S>(
    pool: PoolView<S>,
    conn: PooledConnection<S>,
    counted: bool,
)
    ensures
        pool.queue.len() + pool.waiting.len() >= pool.capacity ==> offered(
            pool,
            conn,
            counted,
        ).queue == pool.queue && offered(pool, conn, counted).stats == pool.stats && offered(
            pool,
            conn,
            counted,
        ).waiting.last().conn == conn && offered(pool, conn, counted).waiting.last().counted
            == counted,
        pool.queue.len() + pool.waiting.len() < pool.capacity ==> offered(
            pool,
            conn,
            counted,
        ).queue.last() == conn && offered(pool, conn, counted).waiting == pool.waiting && offered(
            pool,
            conn,
            counted,
        ).stats.total_connections == if counted {
            up(pool.stats.total_connections)
        } else {
            pool.stats.total_connections
        },
        offered(pool, conn, counted).capacity == pool.capacity,
        offered(pool, conn, counted).active == pool.active,
{
}

/// As many of those that wait have room as there are, or as there is room for.
pub proof fn admissible_fill_the_room<S>(pool: PoolView<S>)
    requires
        pool.queue.len() <= pool.capacity,
    ensures
        admissible(pool) <= pool.waiting.len(),
        pool.queue.len() + admissible(pool) <= pool.capacity,
        admissible(pool) == pool.waiting.len() || pool.queue.len() + admissible(pool)
            == pool.capacity,
{
}

/// What is taken out of a pool is the oldest usable connection, noted as used
/// now: every older one was not usable, and goes; every younger one stays in its
/// place. Where nothing is taken, no connection was usable, and none stays.
pub proof fn take_gives_oldest_usable<S, F: Fn(&S) -> bool>(
    before: PoolView<S>,
    after: PoolView<S>,
    taken: Option<PooledConnection<S>>,
    k: int,
    now: u128,
    healthy: F,
)
    requires
        is_taking(before, after, taken, k, now, healthy),
    ensures
        after.waiting == before.waiting,
        after.capacity == before.capacity,
        after.active == before.active,
        taken is None ==> after.queue.len() == 0 && forall|i: int|
            0 <= i < before.queue.len() ==> call_ensures(
                healthy,
                (&(#[trigger] before.queue[i]).stream,),
                false,
            ),
        taken matches Some(conn) ==> {
            let place = before.queue.len() - after.queue.len() - 1;
            &&& 0 <= place < before.queue.len()
            &&& conn.stream == before.queue[place].stream
            &&& conn.created_at == before.queue[place].created_at
            &&& conn.last_active == now
            &&& call_ensures(healthy, (&before.queue[place].stream,), true)
            &&& forall|i: int|
                0 <= i < place ==> call_ensures(
                    healthy,
                    (&(#[trigger] before.queue[i]).stream,),
                    false,
                )
            &&& forall|i: int|
                0 <= i < after.queue.len() ==> #[trigger] after.queue[i] == before.queue[place + 1
                    + i]
            &&& after.stats.connection_requests == (before.stats.connection_requests + 1)
                % 0x1_0000_0000_0000_0000
        },
{
    lemma_closed_frame(before.stats, k as nat);
}

proof fn lemma_closed_frame(stats: StatsView, n: nat)
    ensures
        closed_stats(stats, n).connection_requests == stats.connection_requests,
        closed_stats(stats, n).active_connections == stats.active_connections,
        closed_stats(stats, n).last_scaling_time == stats.last_scaling_time,
    decreases n,
{
    if n > 0 {
        lemma_closed_frame(stats, (n - 1) as nat);
    }
}

/// Whether the connections at some places are those that a check leaves, in
/// order: each was used within the time that is set and is usable, and each that
/// is left out was not used within it or is not usable.
pub open spec fn are_good_places<S, F: Fn(&S) -> bool>(
    places: Seq<int>,
    queue: Seq<PooledConnection<S>>,
    idle_timeout: Duration,
    now: u128,
    healthy: F,
) -> bool {
    &&& forall|i: int|
        0 <= i < places.len() ==> 0 <= #[trigger] places[i] < queue.len() && now
            - queue[places[i]].last_active <= idle_timeout.nanos && call_ensures(
            healthy,
            (&queue[places[i]].stream,),
            true,
        )
    &&& forall|i: int, j: int|
        0 <= i < j < places.len() ==> #[trigger] places[i] < #[trigger] places[j]
    &&& forall|k: int|
        0 <= k < queue.len() && !places.contains(k) ==> now - (#[trigger] queue[k]).last_active
            > idle_timeout.nanos || call_ensures(healthy, (&queue[k].stream,), false)
}

/// A check finds just the connections good that were used within the time that
/// is set and are usable. They stay in order, each noted as used now.
pub proof fn check_finds_the_good<S, F: Fn(&S) -> bool>(
    queue: Seq<PooledConnection<S>>,
    stays: Seq<bool>,
    idle_timeout: Duration,
    now: u128,
    healthy: F,
)
    requires
        checked(queue, stays, idle_timeout, now, healthy),
    ensures
        exists|places: Seq<int>| #[trigger]
            are_good_places(places, queue, idle_timeout, now, healthy) && staying(queue, stays, now)
                == places.map_values(
                |p: int|
                    PooledConnection {
                        stream: queue[p].stream,
                        created_at: queue[p].created_at,
                        last_active: now,
                    },
            ),
{
    let places = true_places(stays);
    lemma_true_places(queue, stays, now);
    assert forall|i: int| 0 <= i < places.len() implies 0 <= #[trigger] places[i] < queue.len()
        && now - queue[places[i]].last_active <= idle_timeout.nanos && call_ensures(
        healthy,
        (&queue[places[i]].stream,),
        true,
    ) by {
        assert(stays[places[i]]);
    }
    assert forall|k: int| 0 <= k < queue.len() && !places.contains(k) implies now - (
    #[trigger] queue[k]).last_active > idle_timeout.nanos || call_ensures(
        healthy,
        (&queue[k].stream,),
        false,
    ) by {
        assert(!stays[k]);
    }
    assert(are_good_places(places, queue, idle_timeout, now, healthy));
}

spec fn true_places(stays: Seq<bool>) -> Seq<int>
    decreases stays.len(),
{
    if stays.len() == 0 {
        Seq::empty()
    } else if stays.last() {
        true_places(stays.drop_last()).push(stays.len() - 1)
    } else {
        true_places(stays.drop_last())
    }
}

spec fn touched<S>(conn: PooledConnection<S>, now: u128) -> PooledConnection<S> {
    PooledConnection { stream: conn.stream, created_at: conn.created_at, last_active: now }
}

proof fn lemma_true_places<S>(queue: Seq<PooledConnection<S>>, stays: Seq<bool>, now: u128)
    requires
        stays.len() == queue.len(),
    ensures
        ({
            let places = true_places(stays);
            &&& staying(queue, stays, now) == places.map_values(|p: int| touched(queue[p], now))
            &&& forall|i: int|
                0 <= i < places.len() ==> 0 <= #[trigger] places[i] < stays.len()
                    && stays[places[i]]
            &&& forall|i: int, j: int|
                0 <= i < j < places.len() ==> #[trigger] places[i] < #[trigger] places[j]
            &&& forall|k: int|
                0 <= k < stays.len() && #[trigger] stays[k] ==> places.contains(k)
        }),
    decreases queue.len(),
{
    let places = true_places(stays);
    if queue.len() == 0 {
        assert(staying(queue, stays, now) =~= places.map_values(|p: int| touched(queue[p], now)));
    } else {
        let init = queue.drop_last();
        let early = stays.drop_last();
        let before = true_places(early);
        lemma_true_places(init, early, now);
        assert forall|i: int| 0 <= i < places.len() implies 0 <= #[trigger] places[i] < stays.len()
            && stays[places[i]] by {
            if i < before.len() {
                assert(before[i] == places[i]);
                assert(early[before[i]]);
            }
        }
        assert forall|i: int, j: int| 0 <= i < j < places.len() implies #[trigger] places[i]
            < #[trigger] places[j] by {
            assert(before[i] == places[i]);
            if j < before.len() {
                assert(before[j] == places[j]);
            }
        }
        assert forall|k: int| 0 <= k < stays.len() && #[trigger] stays[k] implies places.contains(
            k,
        ) by {
            if k < early.len() {
                assert(early[k]);
                assert(before.contains(k));
                let w = choose|w: int| 0 <= w < before.len() && before[w] == k;
                assert(places[w] == k);
            } else {
                assert(places[places.len() - 1] == k);
            }
        }
        assert(staying(init, early, now) =~= before.map_values(|p: int| touched(init[p], now)));
        assert forall|i: int| 0 <= i < places.len() implies staying(queue, stays, now)[i]
            == touched(queue[#[trigger] places[i]], now) by {
            if i < before.len() {
                assert(before[i] == places[i]);
                assert(staying(init, early, now)[i] == touched(init[before[i]], now));
            }
        }
        assert(staying(queue, stays, now) =~= places.map_values(|p: int| touched(queue[p], now)));
    }
}

/// A usable connection goes back where there is room beside those that wait, as
/// the newest and noted as used now; every other is closed.
pub proof fn good_connections_go_back<S>(
    pool: PoolView<S>,
    conn: PooledConnection<S>,
    healthy: bool,
    now: u128,
)
    ensures
        healthy && pool.queue.len() + pool.waiting.len() < pool.capacity ==> returned(
            pool,
            conn,
            healthy,
            now,
        ).queue.len() == pool.queue.len() + 1 && returned(pool, conn, healthy, now).queue.last()
            == (PooledConnection {
            stream: conn.stream,
            created_at: conn.created_at,
            last_active: now,
        }) && returned(pool, conn, healthy, now).queue.drop_last() == pool.queue,
        !healthy || pool.queue.len() + pool.waiting.len() >= pool.capacity ==> returned(
            pool,
            conn,
            healthy,
            now,
        ).queue == pool.queue,
        returned(pool, conn, healthy, now).waiting == pool.waiting,
        pool.stats.active_connections > 0 ==> returned(
            pool,
            conn,
            healthy,
            now,
        ).stats.active_connections == pool.stats.active_connections - 1,
{
    let after = returned(pool, conn, healthy, now);
    if healthy && has_room(pool) {
        assert(after.queue.drop_last() =~= pool.queue);
    }
}

} // verus!
