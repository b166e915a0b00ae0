//! Connections that are made before they are needed.
use crate::config::{AppConfig, ConnectionPoolConfig};
use crate::net::IpAddr;
use crate::server::{draw_size, is_draw};
use crate::state::IpManager;
use std::collections::VecDeque;
use vstd::arithmetic::power2::{lemma2_to64, lemma_pow2_pos, lemma_pow2_unfold, pow2};
use vstd::prelude::*;

verus! {

/// Milliseconds that making a connection ahead of need may take.
pub const PRE_CONNECT_TIMEOUT_MS: u64 = 2000;

/// Milliseconds that filling the pool is put off at most after failures.
pub const MAX_BACKOFF_MS: u64 = 30_000;

/// A connection in the pool.
pub struct PooledConnection<S> {
    pub stream: S,
    pub ip: IpAddr,
    /// When it was made, in nanoseconds on a clock that never goes back.
    pub created_at: u128,
}

/// What has happened to the pool. The counters start over after the largest
/// number.
#[derive(Clone, Copy, Debug, PartialEq, Eq, Structural)]
pub struct PoolStats {
    pub total_acquired: u64,
    pub hits: u64,
    pub misses: u64,
    /// Dropped for their age.
    pub expired: u64,
    /// Dropped since the other side had closed them.
    pub dead: u64,
    /// Dropped since the pool was full.
    pub evicted: u64,
    /// Dropped in the background.
    pub cleaned: u64,
}

/// What has happened to the pool, and how many connections it holds.
#[derive(Clone, Copy, Debug, PartialEq, Eq, Structural)]
pub struct PoolStatsSnapshot {
    pub pool_size: usize,
    pub total_acquired: u64,
    pub hits: u64,
    pub misses: u64,
    pub expired: u64,
    pub dead: u64,
    pub evicted: u64,
    pub cleaned: u64,
}

/// What becomes of a connection that is looked at.
pub enum Verdict {
    /// It can be used.
    Live,
    /// It is too old.
    Expired,
    /// The other side has closed it.
    Dead,
}

/// A counter after `n` more events.
pub open spec fn counted(counter: u64, n: int) -> int {
    (counter + n) % 0x1_0000_0000_0000_0000
}

/// How long a connection has been there.
pub open spec fn age<S>(conn: PooledConnection<S>, now: u128) -> int {
    if now >= conn.created_at {
        now - conn.created_at
    } else {
        0
    }
}

/// Whether a connection is young enough.
pub open spec fn is_fresh<S>(conn: PooledConnection<S>, now: u128, max_idle_secs: u64) -> bool {
    age(conn, now) < max_idle_secs * 1_000_000_000
}

/// Whether a verdict is right: age decides first, then what `alive` says.
pub open spec fn judged<S, F: Fn(&S) -> bool>(
    conn: PooledConnection<S>,
    verdict: Verdict,
    now: u128,
    max_idle_secs: u64,
    alive: F,
) -> bool {
    match verdict {
        Verdict::Expired => !is_fresh(conn, now, max_idle_secs),
        Verdict::Dead => is_fresh(conn, now, max_idle_secs) && call_ensures(
            alive,
            (&conn.stream,),
            false,
        ),
        Verdict::Live => is_fresh(conn, now, max_idle_secs) && call_ensures(
            alive,
            (&conn.stream,),
            true,
        ),
    }
}

/// How many connections were found too old.
pub open spec fn expired_count(verdicts: Seq<Verdict>) -> int
    decreases verdicts.len(),
{
    if verdicts.len() == 0 {
        0
    } else {
        expired_count(verdicts.drop_last()) + if verdicts.last() is Expired {
            1int
        } else {
            0int
        }
    }
}

/// How many connections were found closed.
pub open spec fn dead_count(verdicts: Seq<Verdict>) -> int
    decreases verdicts.len(),
{
    if verdicts.len() == 0 {
        0
    } else {
        dead_count(verdicts.drop_last()) + if verdicts.last() is Dead {
            1int
        } else {
            0int
        }
    }
}

/// The connections that can be used, in order.
pub open spec fn live<S>(
    conns: Seq<PooledConnection<S>>,
    verdicts: Seq<Verdict>,
) -> Seq<PooledConnection<S>>
    decreases conns.len(),
{
    if conns.len() == 0 {
        Seq::empty()
    } else {
        let before = live(conns.drop_last(), verdicts.drop_last());
        if verdicts.last() is Live {
            before.push(conns.last())
        } else {
            before
        }
    }
}

/// Whether the verdicts on the newest connections, newest first, end with the
/// first that can be used or, where none can, with the oldest connection.
pub open spec fn searched<S, F: Fn(&S) -> bool>(
    conns: Seq<PooledConnection<S>>,
    verdicts: Seq<Verdict>,
    now: u128,
    max_idle_secs: u64,
    alive: F,
) -> bool {
    &&& verdicts.len() <= conns.len()
    &&& forall|i: int|
        0 <= i < verdicts.len() ==> judged(
            conns[conns.len() - 1 - i],
            #[trigger] verdicts[i],
            now,
            max_idle_secs,
            alive,
        )
    &&& forall|i: int| 0 <= i < verdicts.len() - 1 ==> !(#[trigger] verdicts[i] is Live)
    &&& (verdicts.len() > 0 && verdicts.last() is Live) || verdicts.len() == conns.len()
}

/// The connections of the pool, oldest first.
pub struct ConnectionPool<S> {
    pub conns: VecDeque<PooledConnection<S>>,
    pub stats: PoolStats,
    pub config: ConnectionPoolConfig,
}

/// Whether taking a connection out of a pool went as the verdicts say.
pub open spec fn is_acquisition<S, F: Fn(&S) -> bool>(
    before: ConnectionPool<S>,
    after: ConnectionPool<S>,
    taken: Option<(S, IpAddr)>,
    verdicts: Seq<Verdict>,
    now: u128,
    alive: F,
) -> bool {
    let conns = before.conns@;
    let n = verdicts.len() as int;
    &&& searched(conns, verdicts, now, before.config.max_idle_secs, alive)
    &&& after.conns@ == conns.take(conns.len() - n)
    &&& match taken {
        Some(conn) => n > 0 && verdicts.last() is Live && conn.0 == conns[conns.len() - n].stream
            && conn.1 == conns[conns.len() - n].ip,
        None => n == 0 || !(verdicts.last() is Live),
    }
    &&& after.stats.total_acquired == counted(before.stats.total_acquired, 1)
    &&& after.stats.hits == counted(before.stats.hits, if taken is Some { 1 } else { 0 })
    &&& after.stats.misses == counted(before.stats.misses, if taken is Some { 0 } else { 1 })
    &&& after.stats.expired == counted(before.stats.expired, expired_count(verdicts))
    &&& after.stats.dead == counted(before.stats.dead, dead_count(verdicts))
    &&& after.stats.evicted == before.stats.evicted
    &&& after.stats.cleaned == before.stats.cleaned
}

/// Whether cleaning a pool went as the verdicts say.
pub open spec fn is_purge<S, F: Fn(&S) -> bool>(
    before: ConnectionPool<S>,
    after: ConnectionPool<S>,
    verdicts: Seq<Verdict>,
    now: u128,
    alive: F,
) -> bool {
    &&& all_judged(before.conns@, verdicts, now, before.config.max_idle_secs, alive)
    &&& after.conns@ == live(before.conns@, verdicts)
    &&& after.stats.expired == counted(before.stats.expired, expired_count(verdicts))
    &&& after.stats.dead == counted(before.stats.dead, dead_count(verdicts))
}

/// Whether putting a connection into a pool went right: into a full pool it
/// comes in place of the oldest.
pub open spec fn is_push<S>(
    before: ConnectionPool<S>,
    after: ConnectionPool<S>,
    conn: PooledConnection<S>,
) -> bool {
    let full = before.conns@.len() >= before.config.pool_size;
    &&& after.conns@ == if !full {
        before.conns@.push(conn)
    } else if before.conns@.len() == 0 {
        seq![conn]
    } else {
        before.conns@.drop_first().push(conn)
    }
    &&& after.stats == if full {
        PoolStats { evicted: counted(before.stats.evicted, 1) as u64, ..before.stats }
    } else {
        before.stats
    }
}

impl<S> ConnectionPool<S> {
    /// No more connections than the pool holds.
    pub open spec fn wf(self) -> bool {
        self.conns@.len() <= self.config.pool_size || self.conns@.len() <= 1
    }

    /// A pool without connections.
    pub fn new(config: ConnectionPoolConfig) -> (pool: ConnectionPool<S>)
        ensures
            pool.wf(),
            pool.conns@.len() == 0,
            pool.config == config,
            pool.stats == (PoolStats {
                total_acquired: 0,
                hits: 0,
                misses: 0,
                expired: 0,
                dead: 0,
                evicted: 0,
                cleaned: 0,
            }),
    {
        ConnectionPool {
            conns: VecDeque::new(),
            stats: PoolStats {
                total_acquired: 0,
                hits: 0,
                misses: 0,
                expired: 0,
                dead: 0,
                evicted: 0,
                cleaned: 0,
            },
            config,
        }
    }

    /// Whether a connection is young enough.
    pub fn is_conn_fresh(&self, conn: &PooledConnection<S>, now: u128) -> (b: bool)
        ensures
            b == is_fresh(*conn, now, self.config.max_idle_secs),
            b <==> self.config.max_idle_secs > 0 && now - conn.created_at
                < self.config.max_idle_secs * 1_000_000_000,
    {
        now.saturating_sub(conn.created_at) < self.config.max_idle_secs as u128 * 1_000_000_000
    }

    /// Takes the newest connection that can be used out of the pool. Newer ones
    /// that cannot be used are dropped.
    pub fn acquire(&mut self, now: u128, alive: impl Fn(&S) -> bool) -> (r: Option<(S, IpAddr)>)
        requires
            old(self).wf(),
            forall|stream: &S| #[trigger] call_requires(alive, (stream,)),
        ensures
            final(self).wf(),
            final(self).config == old(self).config,
            exists|verdicts: Seq<Verdict>| #[trigger]
                is_acquisition(*old(self), *final(self), r, verdicts, now, alive),
    {
        let ghost conns: Seq<PooledConnection<S>> = self.conns@;
        let ghost stats: PoolStats = self.stats;
        let ghost idle: u64 = self.config.max_idle_secs;
        let ghost mut verdicts: Seq<Verdict> = Seq::empty();
        self.stats.total_acquired = self.stats.total_acquired.wrapping_add(1);
        assert(conns.take(conns.len() as int) =~= conns);
        loop
            invariant
                forall|stream: &S| #[trigger] call_requires(alive, (stream,)),
                self.config == old(self).config,
                idle == self.config.max_idle_secs,
                conns == old(self).conns@,
                stats == old(self).stats,
                verdicts.len() <= conns.len(),
                self.conns@ == conns.take(conns.len() - verdicts.len()),
                conns.len() <= self.config.pool_size || conns.len() <= 1,
                forall|i: int|
                    0 <= i < verdicts.len() ==> judged(
                        conns[conns.len() - 1 - i],
                        #[trigger] verdicts[i],
                        now,
                        idle,
                        alive,
                    ),
                forall|i: int| 0 <= i < verdicts.len() ==> !(#[trigger] verdicts[i] is Live),
                self.stats.total_acquired == counted(stats.total_acquired, 1),
                self.stats.hits == stats.hits,
                self.stats.misses == stats.misses,
                self.stats.expired == counted(stats.expired, expired_count(verdicts)),
                self.stats.dead == counted(stats.dead, dead_count(verdicts)),
                self.stats.evicted == stats.evicted,
                self.stats.cleaned == stats.cleaned,
            decreases self.conns@.len(),
        {
            let ghost before: Seq<Verdict> = verdicts;
            let conn: PooledConnection<S> = match self.conns.pop_back() {
                Some(conn) => conn,
                None => {
                    self.stats.misses = self.stats.misses.wrapping_add(1);
                    assert(searched(conns, verdicts, now, idle, alive));
                    assert(is_acquisition(*old(self), *self, None, verdicts, now, alive));
                    return None;
                },
            };
            assert(conn == conns[conns.len() - 1 - before.len()]);
            assert(self.conns@ =~= conns.take(conns.len() - before.len() - 1));
            if !self.is_conn_fresh(&conn, now) {
                proof {
                    verdicts = before.push(Verdict::Expired);
                    assert(verdicts.drop_last() =~= before);
                }
                self.stats.expired = self.stats.expired.wrapping_add(1);
                continue;
            }
            if !alive(&conn.stream) {
                proof {
                    verdicts = before.push(Verdict::Dead);
                    assert(verdicts.drop_last() =~= before);
                }
                self.stats.dead = self.stats.dead.wrapping_add(1);
                continue;
            }
            proof {
                verdicts = before.push(Verdict::Live);
                assert(verdicts.drop_last() =~= before);
                assert(searched(conns, verdicts, now, idle, alive));
            }
            self.stats.hits = self.stats.hits.wrapping_add(1);
            let taken: (S, IpAddr) = (conn.stream, conn.ip);
            assert(is_acquisition(*old(self), *self, Some(taken), verdicts, now, alive));
            return Some(taken);
        }
    }

    /// What has happened to the pool, and how many connections it holds.
    pub fn snapshot(&self) -> (s: PoolStatsSnapshot)
        ensures
            s == (PoolStatsSnapshot {
                pool_size: self.conns@.len() as usize,
                total_acquired: self.stats.total_acquired,
                hits: self.stats.hits,
                misses: self.stats.misses,
                expired: self.stats.expired,
                dead: self.stats.dead,
                evicted: self.stats.evicted,
                cleaned: self.stats.cleaned,
            }),
            s.pool_size == self.conns@.len(),
    {
        PoolStatsSnapshot {
            pool_size: self.conns.len(),
            total_acquired: self.stats.total_acquired,
            hits: self.stats.hits,
            misses: self.stats.misses,
            expired: self.stats.expired,
            dead: self.stats.dead,
            evicted: self.stats.evicted,
            cleaned: self.stats.cleaned,
        }
    }

    /// How many connections the pool holds.
    pub fn current_size(&self) -> (n: usize)
        ensures
            n == self.conns@.len(),
    {
        self.conns.len()
    }

    /// Puts a connection into the pool. Where the pool is full the oldest
    /// connection is dropped.
    pub fn push(&mut self, conn: PooledConnection<S>)
        requires
            old(self).wf(),
        ensures
            final(self).wf(),
            final(self).config == old(self).config,
            is_push(*old(self), *final(self), conn),
    {
        if self.conns.len() >= self.config.pool_size {
            let _oldest: Option<PooledConnection<S>> = self.conns.pop_front();
            self.stats.evicted = self.stats.evicted.wrapping_add(1);
        }
        self.conns.push_back(conn);
        assert(old(self).conns@.len() == 0 ==> self.conns@ =~= seq![conn]);
    }

    /// Drops the connections that are too old or closed, and says how many
    /// these were. The others stay in order.
    pub fn purge_stale(&mut self, now: u128, alive: impl Fn(&S) -> bool) -> (removed: usize)
        requires
            old(self).wf(),
            forall|stream: &S| #[trigger] call_requires(alive, (stream,)),
        ensures
            final(self).wf(),
            final(self).config == old(self).config,
            removed == old(self).conns@.len() - final(self).conns@.len(),
            exists|verdicts: Seq<Verdict>| #[trigger]
                is_purge(*old(self), *final(self), verdicts, now, alive),
            final(self).stats.cleaned == counted(old(self).stats.cleaned, removed as int),
            final(self).stats.total_acquired == old(self).stats.total_acquired,
            final(self).stats.hits == old(self).stats.hits,
            final(self).stats.misses == old(self).stats.misses,
            final(self).stats.evicted == old(self).stats.evicted,
    {
        let ghost conns: Seq<PooledConnection<S>> = self.conns@;
        let ghost stats: PoolStats = self.stats;
        let ghost idle: u64 = self.config.max_idle_secs;
        let ghost mut verdicts: Seq<Verdict> = Seq::empty();
        let before: usize = self.conns.len();
        let mut kept: VecDeque<PooledConnection<S>> = VecDeque::new();
        assert(conns.skip(0) =~= conns);
        assert(kept@ =~= live(conns.take(0), verdicts));
        loop
            invariant
                forall|stream: &S| #[trigger] call_requires(alive, (stream,)),
                self.config == old(self).config,
                idle == self.config.max_idle_secs,
                conns == old(self).conns@,
                before == conns.len(),
                stats == old(self).stats,
                verdicts.len() <= conns.len(),
                self.conns@ == conns.skip(verdicts.len() as int),
                kept@ == live(conns.take(verdicts.len() as int), verdicts),
                kept@.len() <= verdicts.len(),
                forall|i: int|
                    0 <= i < verdicts.len() ==> judged(
                        conns[i],
                        #[trigger] verdicts[i],
                        now,
                        idle,
                        alive,
                    ),
                self.stats.expired == counted(stats.expired, expired_count(verdicts)),
                self.stats.dead == counted(stats.dead, dead_count(verdicts)),
                self.stats.total_acquired == stats.total_acquired,
                self.stats.hits == stats.hits,
                self.stats.misses == stats.misses,
                self.stats.evicted == stats.evicted,
                self.stats.cleaned == stats.cleaned,
            ensures
                verdicts.len() == conns.len(),
            decreases self.conns@.len(),
        {
            let ghost earlier: Seq<Verdict> = verdicts;
            let ghost n: int = verdicts.len() as int;
            let conn: PooledConnection<S> = match self.conns.pop_front() {
                Some(conn) => conn,
                None => {
                    break;
                },
            };
            assert(conn == conns[n]);
            assert(self.conns@ =~= conns.skip(n + 1));
            assert(conns.take(n + 1).drop_last() =~= conns.take(n));
            assert(conns.take(n + 1).last() == conn);
            if !self.is_conn_fresh(&conn, now) {
                proof {
                    verdicts = earlier.push(Verdict::Expired);
                    assert(verdicts.drop_last() =~= earlier);
                }
                self.stats.expired = self.stats.expired.wrapping_add(1);
                continue;
            }
            if !alive(&conn.stream) {
                proof {
                    verdicts = earlier.push(Verdict::Dead);
                    assert(verdicts.drop_last() =~= earlier);
                }
                self.stats.dead = self.stats.dead.wrapping_add(1);
                continue;
            }
            proof {
                verdicts = earlier.push(Verdict::Live);
                assert(verdicts.drop_last() =~= earlier);
            }
            kept.push_back(conn);
        }
        assert(conns.take(verdicts.len() as int) =~= conns);
        assert(all_judged(conns, verdicts, now, idle, alive));
        let removed: usize = before - kept.len();
        self.conns = kept;
        self.stats.cleaned = self.stats.cleaned.wrapping_add(removed as u64);
        assert(is_purge(*old(self), *self, verdicts, now, alive));
        removed
    }
}

/// Whether there is a right verdict on every connection.
pub open spec fn all_judged<S, F: Fn(&S) -> bool>(
    conns: Seq<PooledConnection<S>>,
    verdicts: Seq<Verdict>,
    now: u128,
    max_idle_secs: u64,
    alive: F,
) -> bool {
    &&& verdicts.len() == conns.len()
    &&& forall|i: int|
        0 <= i < verdicts.len() ==> judged(
            conns[i],
            #[trigger] verdicts[i],
            now,
            max_idle_secs,
            alive,
        )
}

/// Every attempt to take a connection counts as a hit or as a miss.
pub open spec fn balanced(stats: PoolStats) -> bool {
    stats.total_acquired == (stats.hits + stats.misses) % 0x1_0000_0000_0000_0000
}

/// Taking a connection keeps attempts, hits and misses in balance.
pub proof fn acquisition_keeps_balance<S, F: Fn(&S) -> bool>(
    before: ConnectionPool<S>,
    after: ConnectionPool<S>,
    taken: Option<(S, IpAddr)>,
    verdicts: Seq<Verdict>,
    now: u128,
    alive: F,
)
    requires
        balanced(before.stats),
        is_acquisition(before, after, taken, verdicts, now, alive),
    ensures
        balanced(after.stats),
{
}

/// The connection put in last is taken out first, as long as it can be used,
/// and the others stay.
pub proof fn last_in_first_out<S, F: Fn(&S) -> bool>(
    earlier: ConnectionPool<S>,
    before: ConnectionPool<S>,
    after: ConnectionPool<S>,
    taken: Option<(S, IpAddr)>,
    verdicts: Seq<Verdict>,
    now: u128,
    alive: F,
    conn: PooledConnection<S>,
)
    requires
        is_push(earlier, before, conn),
        is_acquisition(before, after, taken, verdicts, now, alive),
        is_fresh(conn, now, before.config.max_idle_secs),
        forall|b: bool| #[trigger] call_ensures(alive, (&conn.stream,), b) ==> b,
    ensures
        taken == Some((conn.stream, conn.ip)),
        after.conns@ == before.conns@.drop_last(),
        earlier.conns@.len() < earlier.config.pool_size ==> after.conns@ == earlier.conns@,
{
    assert(before.conns@.last() == conn);
    assert(verdicts.len() > 0);
    assert(judged(conn, verdicts[0], now, before.config.max_idle_secs, alive));
    assert(verdicts[0] is Live);
    assert(verdicts.len() == 1);
    assert(after.conns@ =~= before.conns@.drop_last());
    assert(earlier.conns@.push(conn).drop_last() =~= earlier.conns@);
}

/// What a connection pool gives out is young enough.
pub proof fn taken_is_fresh<S, F: Fn(&S) -> bool>(
    before: ConnectionPool<S>,
    after: ConnectionPool<S>,
    taken: Option<(S, IpAddr)>,
    verdicts: Seq<Verdict>,
    now: u128,
    alive: F,
)
    requires
        is_acquisition(before, after, taken, verdicts, now, alive),
        taken is Some,
    ensures
        exists|i: int|
            0 <= i < before.conns@.len() && taken == Some(
                ((#[trigger] before.conns@[i]).stream, before.conns@[i].ip),
            ) && is_fresh(before.conns@[i], now, before.config.max_idle_secs),
{
    let n = verdicts.len() as int;
    let i = before.conns@.len() - n;
    assert(judged(before.conns@[i], verdicts[n - 1], now, before.config.max_idle_secs, alive));
}

/// Cleaning leaves only connections that are young enough.
pub proof fn purge_leaves_fresh<S, F: Fn(&S) -> bool>(
    conns: Seq<PooledConnection<S>>,
    verdicts: Seq<Verdict>,
    now: u128,
    max_idle_secs: u64,
    alive: F,
    i: int,
)
    requires
        all_judged(conns, verdicts, now, max_idle_secs, alive),
        0 <= i < live(conns, verdicts).len(),
    ensures
        is_fresh(live(conns, verdicts)[i], now, max_idle_secs),
        conns.contains(live(conns, verdicts)[i]),
    decreases conns.len(),
{
    let init = conns.drop_last();
    let early = verdicts.drop_last();
    let kept = live(init, early);
    assert(judged(conns.last(), verdicts[verdicts.len() - 1], now, max_idle_secs, alive));
    if i < kept.len() {
        assert forall|j: int| 0 <= j < early.len() implies judged(
            init[j],
            #[trigger] early[j],
            now,
            max_idle_secs,
            alive,
        ) by {
            assert(judged(conns[j], verdicts[j], now, max_idle_secs, alive));
        }
        purge_leaves_fresh(init, early, now, max_idle_secs, alive, i);
        let w = choose|w: int| 0 <= w < init.len() && init[w] == kept[i];
        assert(conns[w] == kept[i]);
    } else {
        assert(conns[conns.len() - 1] == live(conns, verdicts)[i]);
    }
}

/// How many connections are missing from `current` to `target`, but to no more
/// than a pool holds.
pub open spec fn need_of(current: usize, target: usize, pool_size: usize) -> int {
    let limit = if target <= pool_size {
        target
    } else {
        pool_size
    };
    if current >= limit {
        0
    } else {
        limit - current
    }
}

/// How many connections are made to bring a pool from `current` to `target`,
/// but to no more than it holds.
pub fn refill_need(current: usize, target: usize, pool_size: usize) -> (need: usize)
    ensures
        need == need_of(current, target, pool_size),
{
    let limit: usize = if target <= pool_size {
        target
    } else {
        pool_size
    };
    if current >= limit {
        return 0;
    }
    limit - current
}

/// Draws the addresses to connect to, one for each connection that is missing.
pub fn refill_candidates(
    manager: &IpManager,
    config: &AppConfig,
    current: usize,
    target: usize,
    pool_size: usize,
) -> (ips: Vec<IpAddr>)
    requires
        manager.wf(),
    ensures
        ({
            let limit = if target <= pool_size {
                target as int
            } else {
                pool_size as int
            };
            if current >= limit {
                ips@.len() == 0
            } else {
                is_draw(ips@, manager, config, limit - current, 1) && current + ips@.len() <= limit
            }
        }),
        current >= target || current >= pool_size ==> ips@.len() == 0,
        current < target && current < pool_size ==> is_draw(
            ips@,
            manager,
            config,
            need_of(current, target, pool_size),
            1,
        ),
{
    let need: usize = refill_need(current, target, pool_size);
    if need == 0 {
        return Vec::new();
    }
    let ips: Vec<IpAddr> = manager.get_target_ips(config.target_colos.as_slice(), need, 1);
    proof {
        assert(is_draw(ips@, manager, config, need as int, 1));
        draw_size(ips@, manager, config, need as int, 1);
    }
    ips
}

/// Puts a connection into the pool where it could be made, and counts it.
pub fn add_conn_to_pool<S>(
    pool: &mut ConnectionPool<S>,
    made: Option<PooledConnection<S>>,
    filled: &mut usize,
)
    requires
        old(pool).wf(),
        made is Some ==> *old(filled) < usize::MAX,
    ensures
        final(pool).wf(),
        final(pool).config == old(pool).config,
        match made {
            None => *final(pool) == *old(pool) && *final(filled) == *old(filled),
            Some(conn) => *final(filled) == *old(filled) + 1 && is_push(
                *old(pool),
                *final(pool),
                conn,
            ),
        },
{
    if let Some(conn) = made {
        pool.push(conn);
        *filled = *filled + 1;
    }
}

/// What happened to the task that fills the pool.
#[derive(Clone, Copy, Debug, PartialEq, Eq, Structural)]
pub enum RefillEvent {
    Started,
    /// A connection was taken.
    Taken,
    /// The interval has passed.
    IntervalPassed,
    ShutDown,
}

/// What the task that fills the pool does.
#[derive(Clone, Copy, Debug, PartialEq, Eq, Structural)]
pub enum RefillStep {
    /// Clean the pool first where `purge` is set, then fill it up to `target`.
    Fill { purge: bool, target: usize },
    Stop,
}

/// What the task that fills the pool does.
pub open spec fn refill_answer(event: RefillEvent, current: usize, min_idle: usize) -> RefillStep {
    match event {
        RefillEvent::Started => (RefillStep::Fill { purge: false, target: min_idle }),
        RefillEvent::Taken => (RefillStep::Fill {
            purge: false,
            target: if current < usize::MAX {
                (current + 1) as usize
            } else {
                usize::MAX
            },
        }),
        RefillEvent::IntervalPassed => (RefillStep::Fill { purge: true, target: min_idle }),
        RefillEvent::ShutDown => RefillStep::Stop,
    }
}

/// Decides what the task that fills the pool does: at the start and after each
/// interval it keeps the least number there, and for each connection taken it
/// makes one.
pub fn refill_step(event: RefillEvent, current: usize, min_idle: usize) -> (step: RefillStep)
    ensures
        step == refill_answer(event, current, min_idle),
{
    match event {
        RefillEvent::Started => RefillStep::Fill { purge: false, target: min_idle },
        RefillEvent::Taken => RefillStep::Fill {
            purge: false,
            target: current.saturating_add(1),
        },
        RefillEvent::IntervalPassed => RefillStep::Fill { purge: true, target: min_idle },
        RefillEvent::ShutDown => RefillStep::Stop,
    }
}

/// The pause after `failures` failures in a row to fill the pool: it doubles
/// with each, up to half a minute.
pub open spec fn backoff(interval_ms: int, failures: nat) -> int
    decreases failures,
{
    if failures == 0 {
        interval_ms
    } else {
        let doubled = backoff(interval_ms, (failures - 1) as nat) * 2;
        let limit = if interval_ms <= MAX_BACKOFF_MS {
            MAX_BACKOFF_MS as int
        } else {
            interval_ms
        };
        if doubled <= limit {
            doubled
        } else {
            limit
        }
    }
}

/// The pause before the pool is filled again.
pub fn refill_delay(interval_ms: u64, failures: u32) -> (delay_ms: u64)
    ensures
        delay_ms == backoff(interval_ms as int, failures as nat),
{
    let limit: u64 = if interval_ms <= MAX_BACKOFF_MS {
        MAX_BACKOFF_MS
    } else {
        interval_ms
    };
    let mut delay: u64 = interval_ms;
    let mut i: u32 = 0;
    while i < failures
        invariant
            i <= failures,
            delay <= limit,
            limit == if interval_ms <= MAX_BACKOFF_MS {
                MAX_BACKOFF_MS
            } else {
                interval_ms
            },
            delay == backoff(interval_ms as int, i as nat),
        decreases failures - i,
    {
        delay = if delay <= limit - delay {
            delay * 2
        } else {
            limit
        };
        i = i + 1;
    }
    delay
}

/// The failures in a row after one more attempt to fill the pool: one more
/// where connections were tried and none was made, else none.
pub open spec fn failures_after(failures: u32, tried: usize, filled: usize) -> u32 {
    if tried == 0 || filled > 0 {
        0
    } else if failures < u32::MAX {
        (failures + 1) as u32
    } else {
        u32::MAX
    }
}

/// Counts the failures in a row to fill the pool, after one more attempt that
/// tried and made so many connections.
pub fn next_failures(failures: u32, tried: usize, filled: usize) -> (n: u32)
    ensures
        n == failures_after(failures, tried, filled),
{
    if tried > 0 && filled == 0 {
        failures.saturating_add(1)
    } else {
        0
    }
}

/// The pause grows with an attempt that fails, and is the plain interval again
/// after one that does not.
pub proof fn backoff_follows_attempts(interval_ms: nat, failures: u32, tried: usize, filled: usize)
    ensures
        tried > 0 && filled == 0 ==> backoff(interval_ms as int, failures as nat) <= backoff(
            interval_ms as int,
            failures_after(failures, tried, filled) as nat,
        ),
        tried == 0 || filled > 0 ==> backoff(
            interval_ms as int,
            failures_after(failures, tried, filled) as nat,
        ) == interval_ms,
{
    backoff_bounds(interval_ms, failures as nat);
}

/// The pause never exceeds half a minute, or the interval where that is
/// longer, and never gets shorter with one more failure.
pub proof fn backoff_bounds(interval_ms: nat, failures: nat)
    ensures
        backoff(interval_ms as int, failures) <= MAX_BACKOFF_MS || backoff(
            interval_ms as int,
            failures,
        ) <= interval_ms,
        0 <= backoff(interval_ms as int, failures) <= backoff(interval_ms as int, failures + 1),
    decreases failures,
{
    if failures > 0 {
        backoff_bounds(interval_ms, (failures - 1) as nat);
    }
}

/// A connection is fresh exactly when less time has passed since it was made
/// than is set, and never where no time is set.
pub proof fn freshness_is_age_below_limit<S>(
    conn: PooledConnection<S>,
    now: u128,
    max_idle_secs: u64,
)
    ensures
        is_fresh(conn, now, max_idle_secs) <==> max_idle_secs > 0 && now - conn.created_at
            < max_idle_secs * 1_000_000_000,
{
}

/// Whether a connection is fresh hangs on the limit: of any age, it is fresh for
/// every limit above its age and for none at or below it.
pub proof fn freshness_follows_the_limit<S>(conn: PooledConnection<S>, now: u128, limit: u64)
    requires
        conn.created_at < now,
    ensures
        limit * 1_000_000_000 > now - conn.created_at ==> is_fresh(conn, now, limit),
        limit * 1_000_000_000 <= now - conn.created_at ==> !is_fresh(conn, now, limit),
{
}

/// What is taken out of a pool is the newest connection that is young enough and
/// alive: every newer one is too old or closed, and goes; every older one stays
/// in its place. Where nothing is taken, every connection was too old or closed,
/// and none stays.
pub proof fn acquire_takes_newest_usable<S, F: Fn(&S) -> bool>(
    before: ConnectionPool<S>,
    after: ConnectionPool<S>,
    taken: Option<(S, IpAddr)>,
    verdicts: Seq<Verdict>,
    now: u128,
    alive: F,
)
    requires
        is_acquisition(before, after, taken, verdicts, now, alive),
    ensures
        after.conns@.len() <= before.conns@.len(),
        forall|i: int|
            0 <= i < after.conns@.len() ==> #[trigger] after.conns@[i] == before.conns@[i],
        taken is None ==> after.conns@.len() == 0,
        taken matches Some(conn) ==> {
            let place = after.conns@.len() as int;
            &&& place < before.conns@.len()
            &&& conn.0 == before.conns@[place].stream
            &&& conn.1 == before.conns@[place].ip
            &&& now - before.conns@[place].created_at < before.config.max_idle_secs * 1_000_000_000
            &&& before.config.max_idle_secs > 0
            &&& call_ensures(alive, (&before.conns@[place].stream,), true)
        },
        forall|i: int|
            after.conns@.len() <= i < before.conns@.len() && (taken is Some ==> i
                > after.conns@.len()) ==> before.config.max_idle_secs == 0 || now
                - (#[trigger] before.conns@[i]).created_at >= before.config.max_idle_secs
                * 1_000_000_000 || call_ensures(alive, (&before.conns@[i].stream,), false),
{
    let conns = before.conns@;
    let n = verdicts.len() as int;
    let max = before.config.max_idle_secs;
    if taken is Some {
        assert(judged(conns[conns.len() - n], verdicts[n - 1], now, max, alive));
    } else if n == 0 {
        assert(conns.len() == 0);
    }
    assert forall|i: int|
        after.conns@.len() <= i < conns.len() && (taken is Some ==> i
            > after.conns@.len()) implies max == 0 || now - (#[trigger] conns[i]).created_at
        >= max * 1_000_000_000 || call_ensures(alive, (&conns[i].stream,), false) by {
        let k = conns.len() - 1 - i;
        assert(judged(conns[conns.len() - 1 - k], verdicts[k], now, max, alive));
        if k < n - 1 {
            assert(!(verdicts[k] is Live));
        }
    }
}

/// An attempt to take a connection counts once, as a hit where one is taken and
/// as a miss where none is; and every connection that goes without being taken
/// counts as too old or as closed.
pub proof fn acquire_counts<S, F: Fn(&S) -> bool>(
    before: ConnectionPool<S>,
    after: ConnectionPool<S>,
    taken: Option<(S, IpAddr)>,
    verdicts: Seq<Verdict>,
    now: u128,
    alive: F,
)
    requires
        is_acquisition(before, after, taken, verdicts, now, alive),
        before.conns@.len() <= u64::MAX,
    ensures
        after.stats.total_acquired == (before.stats.total_acquired + 1) % 0x1_0000_0000_0000_0000,
        taken is Some ==> after.stats.hits == (before.stats.hits + 1) % 0x1_0000_0000_0000_0000
            && after.stats.misses == before.stats.misses,
        taken is None ==> after.stats.misses == (before.stats.misses + 1) % 0x1_0000_0000_0000_0000
            && after.stats.hits == before.stats.hits,
        after.stats.evicted == before.stats.evicted,
        after.stats.cleaned == before.stats.cleaned,
        before.stats.expired + before.stats.dead + before.conns@.len() <= u64::MAX ==> (
        after.stats.expired - before.stats.expired) + (after.stats.dead - before.stats.dead)
            + after.conns@.len() + (if taken is Some {
            1int
        } else {
            0int
        }) == before.conns@.len(),
{
    lemma_counts(verdicts);
    let n = verdicts.len() as int;
    if n > 0 {
        assert forall|i: int| 0 <= i < n - 1 implies !(#[trigger] verdicts.drop_last()[i]
            is Live) by {
            assert(!(verdicts[i] is Live));
        }
        lemma_counts(verdicts.drop_last());
        lemma_no_live(verdicts.drop_last());
    }
}

spec fn live_count(verdicts: Seq<Verdict>) -> int
    decreases verdicts.len(),
{
    if verdicts.len() == 0 {
        0
    } else {
        live_count(verdicts.drop_last()) + if verdicts.last() is Live {
            1int
        } else {
            0int
        }
    }
}

proof fn lemma_counts(verdicts: Seq<Verdict>)
    ensures
        expired_count(verdicts) >= 0,
        dead_count(verdicts) >= 0,
        live_count(verdicts) >= 0,
        expired_count(verdicts) + dead_count(verdicts) + live_count(verdicts) == verdicts.len(),
    decreases verdicts.len(),
{
    if verdicts.len() > 0 {
        lemma_counts(verdicts.drop_last());
    }
}

proof fn lemma_no_live(verdicts: Seq<Verdict>)
    requires
        forall|i: int| 0 <= i < verdicts.len() ==> !(#[trigger] verdicts[i] is Live),
    ensures
        live_count(verdicts) == 0,
    decreases verdicts.len(),
{
    if verdicts.len() > 0 {
        assert(!(verdicts[verdicts.len() - 1] is Live));
        lemma_no_live(verdicts.drop_last());
    }
}

/// Whether the connections at some places are those that a cleaning leaves, in
/// order: each is young enough and alive, and each that is left out is too old
/// or closed.
pub open spec fn are_survivors<S, F: Fn(&S) -> bool>(
    places: Seq<int>,
    conns: Seq<PooledConnection<S>>,
    now: u128,
    max_idle_secs: u64,
    alive: F,
) -> bool {
    &&& forall|i: int|
        0 <= i < places.len() ==> 0 <= #[trigger] places[i] < conns.len() && max_idle_secs > 0
            && now - conns[places[i]].created_at < max_idle_secs * 1_000_000_000 && call_ensures(
            alive,
            (&conns[places[i]].stream,),
            true,
        )
    &&& forall|i: int, j: int|
        0 <= i < j < places.len() ==> #[trigger] places[i] < #[trigger] places[j]
    &&& forall|k: int|
        0 <= k < conns.len() && !places.contains(k) ==> max_idle_secs == 0 || now
            - (#[trigger] conns[k]).created_at >= max_idle_secs * 1_000_000_000 || call_ensures(
            alive,
            (&conns[k].stream,),
            false,
        )
}

/// Cleaning a pool keeps just the connections that are young enough and alive,
/// in their order, and counts each of the others as too old or as closed.
pub proof fn purge_keeps_the_usable<S, F: Fn(&S) -> bool>(
    before: ConnectionPool<S>,
    after: ConnectionPool<S>,
    verdicts: Seq<Verdict>,
    now: u128,
    alive: F,
)
    requires
        is_purge(before, after, verdicts, now, alive),
    ensures
        exists|places: Seq<int>| #[trigger]
            are_survivors(places, before.conns@, now, before.config.max_idle_secs, alive)
                && after.conns@ == places.map_values(|p: int| before.conns@[p]),
        before.stats.expired + before.stats.dead + before.conns@.len() <= u64::MAX ==> (
        after.stats.expired - before.stats.expired) + (after.stats.dead - before.stats.dead)
            + after.conns@.len() == before.conns@.len(),
{
    let conns = before.conns@;
    let max = before.config.max_idle_secs;
    let places = live_places(verdicts);
    lemma_counts(verdicts);
    lemma_live_places(conns, verdicts);
    assert forall|i: int| 0 <= i < places.len() implies 0 <= #[trigger] places[i] < conns.len()
        && max > 0 && now - conns[places[i]].created_at < max * 1_000_000_000 && call_ensures(
        alive,
        (&conns[places[i]].stream,),
        true,
    ) by {
        assert(judged(conns[places[i]], verdicts[places[i]], now, max, alive));
    }
    assert forall|k: int| 0 <= k < conns.len() && !places.contains(k) implies max == 0 || now - (
    #[trigger] conns[k]).created_at >= max * 1_000_000_000 || call_ensures(
        alive,
        (&conns[k].stream,),
        false,
    ) by {
        assert(judged(conns[k], verdicts[k], now, max, alive));
    }
    assert(are_survivors(places, conns, now, max, alive));
}

spec fn live_places(verdicts: Seq<Verdict>) -> Seq<int>
    decreases verdicts.len(),
{
    if verdicts.len() == 0 {
        Seq::empty()
    } else if verdicts.last() is Live {
        live_places(verdicts.drop_last()).push(verdicts.len() - 1)
    } else {
        live_places(verdicts.drop_last())
    }
}

proof fn lemma_live_places<S>(conns: Seq<PooledConnection<S>>, verdicts: Seq<Verdict>)
    requires
        verdicts.len() == conns.len(),
    ensures
        ({
            let places = live_places(verdicts);
            &&& live(conns, verdicts) == places.map_values(|p: int| conns[p])
            &&& places.len() == live_count(verdicts)
            &&& forall|i: int|
                0 <= i < places.len() ==> 0 <= #[trigger] places[i] < verdicts.len()
                    && verdicts[places[i]] is Live
            &&& forall|i: int, j: int|
                0 <= i < j < places.len() ==> #[trigger] places[i] < #[trigger] places[j]
            &&& forall|k: int|
                0 <= k < verdicts.len() && #[trigger] verdicts[k] is Live ==> places.contains(k)
        }),
    decreases conns.len(),
{
    let places = live_places(verdicts);
    if conns.len() == 0 {
        assert(live(conns, verdicts) =~= places.map_values(|p: int| conns[p]));
    } else {
        let init = conns.drop_last();
        let early = verdicts.drop_last();
        let before = live_places(early);
        lemma_live_places(init, early);
        assert forall|i: int| 0 <= i < places.len() implies 0 <= #[trigger] places[i]
            < verdicts.len() && verdicts[places[i]] is Live by {
            if i < before.len() {
                assert(before[i] == places[i]);
                assert(early[before[i]] is Live);
            }
        }
        assert forall|i: int, j: int| 0 <= i < j < places.len() implies #[trigger] places[i]
            < #[trigger] places[j] by {
            assert(before[i] == places[i]);
            if j < before.len() {
                assert(before[j] == places[j]);
            }
        }
        assert forall|k: int|
            0 <= k < verdicts.len() && #[trigger] verdicts[k] is Live implies places.contains(
            k,
        ) by {
            if k < early.len() {
                assert(early[k] is Live);
                assert(before.contains(k));
                let w = choose|w: int| 0 <= w < before.len() && before[w] == k;
                assert(places[w] == k);
            } else {
                assert(places[places.len() - 1] == k);
            }
        }
        assert(live(conns, verdicts) =~= places.map_values(|p: int| conns[p])) by {
            assert(live(init, early) =~= before.map_values(|p: int| init[p]));
            assert forall|i: int| 0 <= i < places.len() implies live(conns, verdicts)[i]
                == conns[#[trigger] places[i]] by {
                if i < before.len() {
                    assert(before[i] == places[i]);
                    assert(live(init, early)[i] == init[before[i]]);
                }
            }
        }
    }
}

/// A connection put into a pool is the newest there. A pool with room keeps all
/// the others; a full one loses its oldest, counts that, and does not grow.
pub proof fn push_replaces_only_the_oldest<S>(
    before: ConnectionPool<S>,
    after: ConnectionPool<S>,
    conn: PooledConnection<S>,
)
    requires
        before.wf(),
        is_push(before, after, conn),
    ensures
        after.conns@.len() > 0,
        after.conns@.last() == conn,
        before.conns@.len() < before.config.pool_size ==> after.conns@.drop_last()
            == before.conns@ && after.stats == before.stats,
        before.conns@.len() >= before.config.pool_size ==> after.stats.evicted == (
        before.stats.evicted + 1) % 0x1_0000_0000_0000_0000,
        0 < before.config.pool_size <= before.conns@.len() ==> after.conns@.drop_last()
            == before.conns@.drop_first() && after.conns@.len() == before.conns@.len(),
        after.stats.hits == before.stats.hits,
        after.stats.misses == before.stats.misses,
        after.stats.total_acquired == before.stats.total_acquired,
        after.stats.expired == before.stats.expired,
        after.stats.dead == before.stats.dead,
        after.stats.cleaned == before.stats.cleaned,
{
    assert(before.conns@.push(conn).drop_last() =~= before.conns@);
    if before.conns@.len() > 0 {
        assert(before.conns@.drop_first().push(conn).drop_last() =~= before.conns@.drop_first());
    }
}

/// A pool is filled up to what is wanted and what it holds, whichever is less,
/// and a pool that has as much is left alone.
pub proof fn refill_reaches_the_target(current: usize, target: usize, pool_size: usize)
    ensures
        current >= target || current >= pool_size ==> need_of(current, target, pool_size) == 0,
        current < target <= pool_size ==> current + need_of(current, target, pool_size) == target,
        current < pool_size <= target ==> current + need_of(current, target, pool_size)
            == pool_size,
{
}

/// Only the shutdown stops the filling; only an interval that passed cleans the
/// pool first; a connection taken is replaced by one, whatever the least number
/// is, and else the least number is kept.
pub proof fn refill_follows_events(event: RefillEvent, current: usize, min_idle: usize)
    ensures
        refill_answer(event, current, min_idle) is Stop <==> event is ShutDown,
        refill_answer(event, current, min_idle) matches RefillStep::Fill { purge, target } ==> {
            &&& purge <==> event is IntervalPassed
            &&& event is Taken && current < usize::MAX ==> target == current + 1
            &&& event is Taken && current == usize::MAX ==> target == current
            &&& event is Started || event is IntervalPassed ==> target == min_idle
        },
{
}

/// The pause is the interval doubled once for each failure in a row, but no more
/// than half a minute, or than the interval where that is longer.
pub proof fn backoff_doubles(interval_ms: nat, failures: nat)
    requires
        interval_ms > 0,
    ensures
        interval_ms * pow2(failures) <= 30_000 ==> backoff(interval_ms as int, failures)
            == interval_ms * pow2(failures),
        interval_ms <= 30_000 && interval_ms * pow2(failures) > 30_000 ==> backoff(
            interval_ms as int,
            failures,
        ) == 30_000,
        interval_ms > 30_000 ==> backoff(interval_ms as int, failures) == interval_ms,
    decreases failures,
{
    lemma2_to64();
    if failures > 0 {
        let earlier = (failures - 1) as nat;
        lemma_pow2_unfold(failures);
        backoff_doubles(interval_ms, earlier);
        let a = interval_ms * pow2(earlier);
        assert(interval_ms * pow2(failures) == 2 * a) by (nonlinear_arith)
            requires
                pow2(failures) == 2 * pow2(earlier),
                a == interval_ms * pow2(earlier),
        ;
        lemma_pow2_pos(earlier);
        assert(a >= interval_ms) by (nonlinear_arith)
            requires
                a == interval_ms * pow2(earlier),
                pow2(earlier) >= 1,
        ;
    }
}

/// Failures in a row are those since the last attempt that made a connection or
/// had nothing to try.
pub proof fn failures_are_counted(failures: u32, tried: usize, filled: usize)
    ensures
        filled > 0 ==> failures_after(failures, tried, filled) == 0,
        tried == 0 ==> failures_after(failures, tried, filled) == 0,
        tried > 0 && filled == 0 && failures < u32::MAX ==> failures_after(failures, tried, filled)
            == failures + 1,
        tried > 0 && filled == 0 && failures == u32::MAX ==> failures_after(failures, tried, filled)
            == u32::MAX,
{
}

} // verus!
