//! Connecting a client to the fastest address.
use crate::config::AppConfig;
use crate::metrics::{advanced, open_then_closed, ForwardMetrics, ForwardMetricsSnapshot};
use crate::net::{IpAddr, IpNet};
use crate::state::{allowed, are_targets, colo_allowed, is_selection, target_place, IpManager};
use crate::text::string_views;
use crate::utils::{host_range_within, is_host_of};
use vstd::prelude::*;

verus! {

/// Milliseconds that one attempt to connect may take.
pub const CONNECT_TIMEOUT_MS: u64 = 1500;

/// Milliseconds that a race may take.
pub const SELECTION_TIMEOUT_MS: u64 = 2000;

/// Seconds that the last attempt to connect may take.
pub const FALLBACK_TIMEOUT_SECS: u64 = 5;

/// The bytes copied at once.
pub const BUFFER_SIZE: usize = 65536;

/// What happened in a race.
#[derive(Clone, Copy, Debug, PartialEq, Eq, Structural)]
pub enum RaceEvent {
    /// An attempt got its connection.
    Connected,
    /// An attempt failed.
    Failed,
    /// The pause before the next start is over.
    DelayPassed,
    /// The race has taken too long.
    TimedOut,
}

/// What a race waits for, or how it ended.
#[derive(Clone, Copy, Debug, PartialEq, Eq, Structural)]
pub enum RaceOutlook {
    /// Wait for an attempt to end, and no longer than the pause where there is
    /// one.
    Wait { delay_ms: Option<u64> },
    /// The attempt that got its connection has won; the others are called off.
    Won,
    /// No attempt won; those still under way are called off.
    Lost,
}

/// What a race does next.
#[derive(Clone, Copy, Debug, PartialEq, Eq, Structural)]
pub struct RaceStep {
    /// The candidate to start.
    pub start: Option<usize>,
    pub outlook: RaceOutlook,
}

/// A race of attempts to connect, which start one after another.
#[derive(Clone, Copy, Debug, PartialEq, Eq, Structural)]
pub struct Race {
    pub total: usize,
    /// The next candidate to start.
    pub next: usize,
    /// The attempts under way.
    pub running: usize,
    pub staggered_delay_ms: u64,
}

impl Race {
    /// No more attempts are under way than were started, and no more were
    /// started than there are candidates.
    pub open spec fn wf(self) -> bool {
        self.running <= self.next <= self.total
    }

    /// What is still to come: candidates to start, and attempts to end.
    pub open spec fn remaining(self) -> int {
        2 * (self.total - self.next) + self.running
    }

    /// What a race does when it goes on: start the next candidate if there is
    /// one, and wait; it is lost when nothing is left to start or to wait for.
    pub open spec fn going_on(self) -> (Race, RaceStep) {
        if self.next < self.total {
            (
                Race {
                    next: (self.next + 1) as usize,
                    running: (self.running + 1) as usize,
                    ..self
                },
                RaceStep {
                    start: Some(self.next),
                    outlook: RaceOutlook::Wait {
                        delay_ms: if self.next + 1 < self.total {
                            Some(self.staggered_delay_ms)
                        } else {
                            None
                        },
                    },
                },
            )
        } else if self.running > 0 {
            (self, RaceStep { start: None, outlook: RaceOutlook::Wait { delay_ms: None } })
        } else {
            (self, RaceStep { start: None, outlook: RaceOutlook::Lost })
        }
    }

    /// The race after an event, and what it does next.
    pub open spec fn after(self, event: RaceEvent) -> (Race, RaceStep) {
        match event {
            RaceEvent::TimedOut => (self, RaceStep { start: None, outlook: RaceOutlook::Lost }),
            RaceEvent::Connected => (self, RaceStep { start: None, outlook: RaceOutlook::Won }),
            RaceEvent::Failed => (Race { running: (self.running - 1) as usize, ..self }).going_on(),
            RaceEvent::DelayPassed => self.going_on(),
        }
    }

    fn go_on(&mut self) -> (step: RaceStep)
        requires
            old(self).wf(),
        ensures
            final(self).wf(),
            (*final(self), step) == old(self).going_on(),
    {
        if self.next < self.total {
            let start: usize = self.next;
            self.next = self.next + 1;
            self.running = self.running + 1;
            let delay_ms: Option<u64> = if self.next < self.total {
                Some(self.staggered_delay_ms)
            } else {
                None
            };
            return RaceStep { start: Some(start), outlook: RaceOutlook::Wait { delay_ms } };
        }
        if self.running > 0 {
            return RaceStep { start: None, outlook: RaceOutlook::Wait { delay_ms: None } };
        }
        RaceStep { start: None, outlook: RaceOutlook::Lost }
    }

    /// Starts a race. Without candidates it is lost at once.
    pub fn begin(total: usize, staggered_delay_ms: u64) -> (r: (Race, RaceStep))
        ensures
            r.0.wf(),
            r == begun(total, staggered_delay_ms),
            total == 0 ==> r.1.outlook is Lost && r.1.start is None,
            total > 0 ==> r.1.start == Some(0usize),
            total == 1 ==> r.1.outlook == (RaceOutlook::Wait { delay_ms: None }),
            total > 1 ==> r.1.outlook == (RaceOutlook::Wait {
                delay_ms: Some(staggered_delay_ms),
            }),
    {
        let mut race: Race = Race { total, next: 0, running: 0, staggered_delay_ms };
        let step: RaceStep = race.go_on();
        (race, step)
    }

    /// Takes in what happened. An attempt can only end while one is under way.
    pub fn step(&mut self, event: RaceEvent) -> (step: RaceStep)
        requires
            old(self).wf(),
            event == RaceEvent::Failed ==> old(self).running > 0,
        ensures
            final(self).wf(),
            (*final(self), step) == old(self).after(event),
            step.outlook is Won <==> event is Connected,
            event is Connected ==> step.start is None,
    {
        match event {
            RaceEvent::TimedOut => RaceStep { start: None, outlook: RaceOutlook::Lost },
            RaceEvent::Connected => RaceStep { start: None, outlook: RaceOutlook::Won },
            RaceEvent::Failed => {
                self.running = self.running - 1;
                self.go_on()
            },
            RaceEvent::DelayPassed => self.go_on(),
        }
    }
}

/// A race comes to an end: whatever it waits for, when that happens there is
/// less left to happen.
pub proof fn race_ends(race: Race, event: RaceEvent)
    requires
        race.wf(),
        event == RaceEvent::Failed ==> race.running > 0,
        event == RaceEvent::DelayPassed ==> race.next < race.total,
    ensures
        race.after(event).1.outlook is Wait ==> 0 <= race.after(event).0.remaining()
            < race.remaining(),
{
}

/// A race is given up only when it has taken too long, or when every candidate
/// was started and every attempt has failed.
pub proof fn race_lost_only_at_the_end(race: Race, event: RaceEvent)
    requires
        race.wf(),
        event == RaceEvent::Failed ==> race.running > 0,
        race.after(event).1.outlook == RaceOutlook::Lost,
    ensures
        event == RaceEvent::TimedOut || (race.after(event).0.next == race.total && race.after(
            event,
        ).0.running == 0),
{
}

/// The candidates start in order, each once.
pub proof fn race_starts_in_order(race: Race, event: RaceEvent, started: usize)
    requires
        race.wf(),
        race.after(event).1.start == Some(started),
    ensures
        started == race.next,
        race.after(event).0.next == race.next + 1,
        started < race.total,
{
}

/// Why a client could not be connected.
#[derive(Clone, Copy, Debug, PartialEq, Eq, Structural)]
pub enum ConnectError {
    /// There is no address to race.
    NoAvailableIps,
    /// There is no address for the last attempt.
    NoFallbackIps,
    /// The last attempt failed.
    FallbackFailed,
    /// The last attempt took too long.
    FallbackTimedOut,
}

/// The counters after a connection came in.
pub open spec fn accepted(counters: ForwardMetricsSnapshot) -> ForwardMetricsSnapshot {
    ForwardMetricsSnapshot {
        total_connections: advanced(counters.total_connections, 1),
        active_connections: advanced(counters.active_connections, 1),
        ..counters
    }
}

/// Counts a connection that came in.
pub fn connection_accepted(metrics: &mut ForwardMetrics)
    ensures
        final(metrics)@ == accepted(old(metrics)@),
{
    metrics.inc_total_connections();
    metrics.inc_active();
}

/// How the handling of a connection ended.
#[derive(Clone, Copy, Debug, PartialEq, Eq, Structural)]
pub enum ConnectionEnd {
    /// It was never handled: the shutdown came first, or no permit.
    NotHandled,
    /// The client could not be connected.
    NotConnected(ConnectError),
    /// Both sides were copied to the end.
    Copied { tx: u64, rx: u64 },
    /// Copying was interrupted.
    Interrupted,
}

/// The counters after a connection ended: bytes count only where they were
/// copied to the end.
pub open spec fn ended(
    counters: ForwardMetricsSnapshot,
    end: ConnectionEnd,
) -> ForwardMetricsSnapshot {
    match end {
        ConnectionEnd::Copied { tx, rx } => ForwardMetricsSnapshot {
            active_connections: advanced(counters.active_connections, -1),
            bytes_tx: advanced(counters.bytes_tx, tx as int),
            bytes_rx: advanced(counters.bytes_rx, rx as int),
            ..counters
        },
        _ => ForwardMetricsSnapshot {
            active_connections: advanced(counters.active_connections, -1),
            ..counters
        },
    }
}

/// A connection that came in and ended, however it ended, is counted once and
/// leaves the number of open connections as it was.
pub proof fn accepted_then_ended(counters: ForwardMetricsSnapshot, end: ConnectionEnd)
    ensures
        ended(accepted(counters), end).active_connections == counters.active_connections,
        ended(accepted(counters), end).total_connections == advanced(
            counters.total_connections,
            1,
        ),
{
    open_then_closed(counters.active_connections);
}

/// Counts a connection as closed, with the bytes that were copied to the end.
pub fn connection_ended(metrics: &mut ForwardMetrics, end: ConnectionEnd)
    ensures
        final(metrics)@ == ended(old(metrics)@, end),
{
    if let ConnectionEnd::Copied { tx, rx } = end {
        metrics.add_bytes(tx, rx);
    }
    metrics.dec_active();
}

/// Where the connection of a client comes from.
#[derive(Clone, Copy, Debug, PartialEq, Eq, Structural)]
pub enum ConnectStep {
    /// Use the connection at hand.
    Use,
    /// Let addresses race for the connection.
    Race,
    /// Make a last attempt.
    FallBack,
}

/// Where the connection of a client comes from after the pool was asked.
pub open spec fn pool_answer(hit: bool) -> ConnectStep {
    if hit {
        ConnectStep::Use
    } else {
        ConnectStep::Race
    }
}

/// Where the connection of a client comes from after a race.
pub open spec fn race_answer(won: bool) -> ConnectStep {
    if won {
        ConnectStep::Use
    } else {
        ConnectStep::FallBack
    }
}

/// Decides after the pool was asked, if there is one.
pub fn after_pool(metrics: &mut ForwardMetrics, hit: bool) -> (step: ConnectStep)
    ensures
        step == pool_answer(hit),
        hit <==> step is Use,
        final(metrics)@ == if hit {
            (ForwardMetricsSnapshot {
                pool_hits: advanced(old(metrics)@.pool_hits, 1),
                ..old(metrics)@
            })
        } else {
            old(metrics)@
        },
{
    if hit {
        metrics.inc_pool_hit();
        return ConnectStep::Use;
    }
    ConnectStep::Race
}

/// Decides after a race.
pub fn after_race(metrics: &mut ForwardMetrics, won: bool) -> (step: ConnectStep)
    ensures
        step == race_answer(won),
        won <==> step is Use,
        final(metrics)@ == if won {
            (ForwardMetricsSnapshot {
                race_successes: advanced(old(metrics)@.race_successes, 1),
                ..old(metrics)@
            })
        } else {
            (ForwardMetricsSnapshot {
                race_failures: advanced(old(metrics)@.race_failures, 1),
                ..old(metrics)@
            })
        },
{
    if won {
        metrics.inc_race_success();
        return ConnectStep::Use;
    }
    metrics.inc_race_failure();
    ConnectStep::FallBack
}

/// Whether `ips` is a draw of addresses: `m` of each of `n` of the best networks
/// in the data centres that are set.
pub open spec fn is_draw(
    ips: Seq<IpAddr>,
    manager: &IpManager,
    config: &AppConfig,
    n: int,
    m: int,
) -> bool {
    exists|selected: Seq<IpNet>| #[trigger]
        is_selection(
            selected,
            allowed(manager.contents(), string_views(config.target_colos@), manager.best()),
            n,
        ) && are_targets(ips, selected, m)
}

/// Draws the addresses that race for a connection. There is at least one: an
/// empty draw is an error.
pub fn race_candidates(manager: &IpManager, config: &AppConfig) -> (r: Result<
    Vec<IpAddr>,
    ConnectError,
>)
    requires
        manager.wf(),
    ensures
        match r {
            Ok(ips) => ips@.len() > 0 && is_draw(
                ips@,
                manager,
                config,
                config.selection_random_n_subnets as int,
                config.selection_random_m_ips as int,
            ),
            Err(e) => e == ConnectError::NoAvailableIps && is_draw(
                Seq::empty(),
                manager,
                config,
                config.selection_random_n_subnets as int,
                config.selection_random_m_ips as int,
            ),
        },
        r is Err <==> config.selection_random_n_subnets == 0 || config.selection_random_m_ips == 0
            || allowed(
            manager.contents(),
            string_views(config.target_colos@),
            manager.best(),
        ).len() == 0,
{
    let ips: Vec<IpAddr> = manager.get_target_ips(
        config.target_colos.as_slice(),
        config.selection_random_n_subnets,
        config.selection_random_m_ips,
    );
    proof {
        let n = config.selection_random_n_subnets as int;
        let m = config.selection_random_m_ips as int;
        assert(is_draw(ips@, manager, config, n, m));
        draw_is_empty(ips@, manager, config, n, m);
    }
    if ips.len() == 0 {
        assert(ips@ =~= Seq::empty());
        return Err(ConnectError::NoAvailableIps);
    }
    Ok(ips)
}

/// Draws the address of the last attempt.
pub fn fallback_candidate(manager: &IpManager, config: &AppConfig) -> (r: Result<
    IpAddr,
    ConnectError,
>)
    requires
        manager.wf(),
    ensures
        match r {
            Ok(ip) => is_draw(seq![ip], manager, config, 1, 1),
            Err(e) => e == ConnectError::NoFallbackIps && is_draw(
                Seq::empty(),
                manager,
                config,
                1,
                1,
            ),
        },
        r is Err <==> allowed(
            manager.contents(),
            string_views(config.target_colos@),
            manager.best(),
        ).len() == 0,
{
    let ips: Vec<IpAddr> = manager.get_target_ips(config.target_colos.as_slice(), 1, 1);
    proof {
        assert(is_draw(ips@, manager, config, 1, 1));
        draw_is_empty(ips@, manager, config, 1, 1);
    }
    if ips.len() == 0 {
        assert(ips@ =~= Seq::empty());
        return Err(ConnectError::NoFallbackIps);
    }
    proof {
        let candidates = allowed(
            manager.contents(),
            string_views(config.target_colos@),
            manager.best(),
        );
        let selected = choose|selected: Seq<IpNet>| #[trigger]
            is_selection(selected, candidates, 1) && are_targets(ips@, selected, 1);
        assert(selected.len() <= 1);
        assert(ips@ =~= seq![ips@[0]]);
    }
    Ok(ips[0])
}

/// There is an address to race exactly when a best network is allowed and the
/// settings ask for at least one network and one address.
pub proof fn draw_is_empty(
    ips: Seq<IpAddr>,
    manager: &IpManager,
    config: &AppConfig,
    n: int,
    m: int,
)
    requires
        is_draw(ips, manager, config, n, m),
        n >= 0,
        m >= 0,
    ensures
        ips.len() == 0 <==> n == 0 || m == 0 || allowed(
            manager.contents(),
            string_views(config.target_colos@),
            manager.best(),
        ).len() == 0,
{
    let candidates = allowed(
        manager.contents(),
        string_views(config.target_colos@),
        manager.best(),
    );
    let selected = choose|selected: Seq<IpNet>| #[trigger]
        is_selection(selected, candidates, n) && are_targets(ips, selected, m);
    assert(ips.len() == selected.len() * m);
    assert(selected.len() * m == 0 <==> selected.len() == 0 || m == 0) by (nonlinear_arith)
        requires
            m >= 0,
    ;
}

/// A draw has `m` addresses for each of `n` networks, or of all that are
/// allowed where there are no more.
pub proof fn draw_size(ips: Seq<IpAddr>, manager: &IpManager, config: &AppConfig, n: int, m: int)
    requires
        is_draw(ips, manager, config, n, m),
        n >= 0,
        m >= 0,
    ensures
        ({
            let candidates = allowed(
                manager.contents(),
                string_views(config.target_colos@),
                manager.best(),
            );
            ips.len() == (if candidates.len() <= n {
                candidates.len() as int
            } else {
                n
            }) * m
        }),
        ips.len() <= n * m,
{
    let candidates = allowed(
        manager.contents(),
        string_views(config.target_colos@),
        manager.best(),
    );
    let selected = choose|selected: Seq<IpNet>| #[trigger]
        is_selection(selected, candidates, n) && are_targets(ips, selected, m);
    assert(selected.len() * m <= n * m) by (nonlinear_arith)
        requires
            selected.len() <= n,
            m >= 0,
    ;
}

/// Every address of a draw is one of a best network, in a data centre that is
/// set where any is.
pub proof fn draw_is_allowed(
    ips: Seq<IpAddr>,
    manager: &IpManager,
    config: &AppConfig,
    n: int,
    m: int,
    i: int,
)
    requires
        manager.wf(),
        is_draw(ips, manager, config, n, m),
        m > 0,
        0 <= i < ips.len(),
    ensures
        exists|net: IpNet| #[trigger]
            manager.best().contains(net) && net.has(ips[i]) && colo_allowed(
                manager.contents(),
                string_views(config.target_colos@),
                net,
            ),
{
    broadcast use vstd::seq_lib::group_to_multiset_ensures;

    let colos = string_views(config.target_colos@);
    let pred = |net: IpNet| colo_allowed(manager.contents(), colos, net);
    let candidates = allowed(manager.contents(), colos, manager.best());
    let selected = choose|selected: Seq<IpNet>| #[trigger]
        is_selection(selected, candidates, n) && are_targets(ips, selected, m);
    let a = i / m;
    let b = i % m;
    vstd::arithmetic::div_mod::lemma_fundamental_div_mod(i, m);
    assert(0 <= a < selected.len() && a * m + b == i) by (nonlinear_arith)
        requires
            i == m * a + b,
            0 <= b < m,
            0 <= i < selected.len() * m,
            m > 0,
    ;
    assert(target_place(a, b, m) == i);
    let net = selected[a];
    assert(is_host_of(ips[target_place(a, b, m)], net));
    assert(candidates.contains(net)) by {
        assert(selected.contains(net));
        selected.to_multiset_ensures();
        candidates.to_multiset_ensures();
        assert(selected.to_multiset().count(net) > 0);
        assert(candidates.to_multiset().count(net) > 0);
    }
    manager.best().lemma_filter_contains_rev(pred, net);
    let w = choose|w: int| 0 <= w < candidates.len() && candidates[w] == net;
    manager.best().lemma_filter_pred(pred, w);
    let v = choose|v: int| 0 <= v < manager.best().len() && manager.best()[v] == net;
    assert(manager.best()[v].wf());
    host_range_within(net);
    assert(manager.best().contains(net));
}

/// How the last attempt to connect ended.
#[derive(Clone, Copy, Debug, PartialEq, Eq, Structural)]
pub enum FallbackEnd {
    Connected,
    Failed,
    TimedOut,
}

/// Judges the last attempt to connect.
pub fn after_fallback(end: FallbackEnd) -> (r: Result<(), ConnectError>)
    ensures
        r == match end {
            FallbackEnd::Connected => Ok::<(), ConnectError>(()),
            FallbackEnd::Failed => Err(ConnectError::FallbackFailed),
            FallbackEnd::TimedOut => Err(ConnectError::FallbackTimedOut),
        },
        r is Ok <==> end is Connected,
{
    match end {
        FallbackEnd::Connected => Ok(()),
        FallbackEnd::Failed => Err(ConnectError::FallbackFailed),
        FallbackEnd::TimedOut => Err(ConnectError::FallbackTimedOut),
    }
}

/// A race is won by the attempt that connects, and by nothing else: whatever is
/// left to start or under way, no other candidate is started then.
pub proof fn first_connection_wins(race: Race, event: RaceEvent)
    requires
        race.wf(),
        event == RaceEvent::Failed ==> race.running > 0,
    ensures
        race.after(event).1.outlook is Won <==> event is Connected,
        event is Connected ==> race.after(event).1.start is None,
{
}

/// A race that has taken too long is lost, and starts no other candidate.
pub proof fn late_race_is_lost(race: Race)
    requires
        race.wf(),
    ensures
        race.after(RaceEvent::TimedOut).1.outlook is Lost,
        race.after(RaceEvent::TimedOut).1.start is None,
{
}

/// As long as there is a candidate, one starts after a failure and after the
/// pause. The race then waits, no longer than the pause that is set where there
/// is another candidate, and without limit for the last.
pub proof fn candidates_follow_each_other(race: Race, event: RaceEvent)
    requires
        race.wf(),
        event == RaceEvent::Failed ==> race.running > 0,
        event is Failed || event is DelayPassed,
        race.next < race.total,
    ensures
        race.after(event).1.start == Some(race.next),
        race.next + 1 < race.total ==> race.after(event).1.outlook == (RaceOutlook::Wait {
            delay_ms: Some(race.staggered_delay_ms),
        }),
        race.next + 1 == race.total ==> race.after(event).1.outlook == (RaceOutlook::Wait {
            delay_ms: None,
        }),
{
}

/// Without another candidate the race goes on as long as an attempt is under
/// way, and is lost with the last.
pub proof fn last_attempts_decide(race: Race)
    requires
        race.wf(),
        race.running > 0,
        race.next == race.total,
    ensures
        race.after(RaceEvent::Failed).1.start is None,
        race.running > 1 ==> race.after(RaceEvent::Failed).1.outlook == (RaceOutlook::Wait {
            delay_ms: None,
        }),
        race.running == 1 ==> race.after(RaceEvent::Failed).1.outlook is Lost,
{
}

/// The attempts under way are those started and not yet failed, and what was
/// set stays.
pub proof fn attempts_are_counted(race: Race, event: RaceEvent)
    requires
        race.wf(),
        event == RaceEvent::Failed ==> race.running > 0,
    ensures
        race.after(event).0.running == race.running + (if race.after(event).1.start is Some {
            1int
        } else {
            0int
        }) - (if event is Failed {
            1int
        } else {
            0int
        }),
        race.after(event).0.next == race.next + (if race.after(event).1.start is Some {
            1int
        } else {
            0int
        }),
        race.after(event).0.total == race.total,
        race.after(event).0.staggered_delay_ms == race.staggered_delay_ms,
{
}

/// The start of a race.
pub open spec fn begun(total: usize, staggered_delay_ms: u64) -> (Race, RaceStep) {
    (Race { total, next: 0, running: 0, staggered_delay_ms }).going_on()
}

/// A race in which the attempts fail one after another, `n` of them.
pub open spec fn failing(total: usize, staggered_delay_ms: u64, n: nat) -> (Race, RaceStep)
    decreases n,
{
    if n == 0 {
        begun(total, staggered_delay_ms)
    } else {
        failing(total, staggered_delay_ms, (n - 1) as nat).0.after(RaceEvent::Failed)
    }
}

/// A race in which every attempt fails starts each candidate, in order, and is
/// lost with the last failure, not before.
pub proof fn race_tries_every_candidate(total: usize, staggered_delay_ms: u64, n: nat)
    requires
        n <= total,
    ensures
        n < total ==> failing(total, staggered_delay_ms, n).1.start == Some(n as usize),
        n < total ==> failing(total, staggered_delay_ms, n).1.outlook is Wait,
        n == total ==> failing(total, staggered_delay_ms, n).1.outlook is Lost,
        n == total ==> failing(total, staggered_delay_ms, n).1.start is None,
    decreases n,
{
    lemma_failing(total, staggered_delay_ms, n);
}

proof fn lemma_failing(total: usize, staggered_delay_ms: u64, n: nat)
    requires
        n <= total,
    ensures
        ({
            let (race, step) = failing(total, staggered_delay_ms, n);
            &&& race.total == total
            &&& race.next == if n < total {
                n + 1
            } else {
                total as nat
            }
            &&& race.running == race.next - n
            &&& n < total ==> step.start == Some(n as usize) && step.outlook is Wait
            &&& n == total ==> step.start is None && step.outlook is Lost
        }),
    decreases n,
{
    if n > 0 {
        lemma_failing(total, staggered_delay_ms, (n - 1) as nat);
    }
}

/// A connection that comes in is one more in all and one more that is open; one
/// that ends is one less that is open. Only a connection that was copied to the
/// end adds its bytes, and nothing else is touched.
pub proof fn connections_move_counters(counters: ForwardMetricsSnapshot, end: ConnectionEnd)
    ensures
        accepted(counters).total_connections == (counters.total_connections + 1)
            % 0x1_0000_0000_0000_0000,
        accepted(counters).active_connections == (counters.active_connections + 1)
            % 0x1_0000_0000_0000_0000,
        accepted(counters).bytes_tx == counters.bytes_tx,
        accepted(counters).bytes_rx == counters.bytes_rx,
        accepted(counters).pool_hits == counters.pool_hits,
        accepted(counters).race_successes == counters.race_successes,
        accepted(counters).race_failures == counters.race_failures,
        counters.active_connections > 0 ==> ended(counters, end).active_connections
            == counters.active_connections - 1,
        ended(counters, end).total_connections == counters.total_connections,
        ended(counters, end).pool_hits == counters.pool_hits,
        ended(counters, end).race_successes == counters.race_successes,
        ended(counters, end).race_failures == counters.race_failures,
        end matches ConnectionEnd::Copied { tx, rx } ==> ended(counters, end).bytes_tx == (
        counters.bytes_tx + tx) % 0x1_0000_0000_0000_0000 && ended(counters, end).bytes_rx == (
        counters.bytes_rx + rx) % 0x1_0000_0000_0000_0000,
        !(end is Copied) ==> ended(counters, end).bytes_tx == counters.bytes_tx && ended(
            counters,
            end,
        ).bytes_rx == counters.bytes_rx,
{
}

/// What is done with a connection at hand, and without one: a connection from
/// the pool or from the race is used, a pool without one leads to the race, and
/// a race without one to the last attempt.
pub proof fn pool_then_race_then_fallback(hit: bool, won: bool)
    ensures
        pool_answer(hit) is Use <==> hit,
        pool_answer(hit) is Race <==> !hit,
        race_answer(won) is Use <==> won,
        race_answer(won) is FallBack <==> !won,
{
}

} // verus!
